//! The model catalog: the targets a status dashboard reports, the estate
//! allowlist that narrows them, and the decision taken on each catalog poll.
use vstd::prelude::*;
use crate::order::{sort_stable, sorted_by_key, stable_sort_of, SortKey};
use crate::text::{
    ascii_lower, chars_of, compare_text, is_space, lemma_ascii_lower_idempotent,
    lemma_lower_of_keeps_class, lemma_trim_ascii_lower, lemma_split_ascii_lower, lower_of,
    lemma_split_all_empty_iff, lemma_split_append_piece, lemma_split_pieces_lack_sep,
    lemma_split_without_sep,
    lemma_text_lt_irreflexive, lemma_trim_empty_iff, lemma_trim_shape, lower_text_of,
    split_on, to_ascii_lower, trim, trimmed_bounds, TextOrder,
};

verus! {

/// One model-serving slot of the catalog.
#[derive(Clone, Debug, PartialEq)]
pub struct ModelTarget {
    pub slot_id: String,
    pub hardware: String,
    pub estate: String,
    pub models: Vec<String>,
    pub state: String,
    pub up: bool,
    pub aliases: Vec<String>,
    pub api_base: String,
}

/// Catalog targets are listed by estate, then by hardware.
impl SortKey for ModelTarget {
    open spec fn sort_key(&self) -> (Seq<char>, Seq<char>) {
        (self.estate@, self.hardware@)
    }

    fn compare_key(&self, other: &Self) -> (r: TextOrder) {
        proof {
            lemma_text_lt_irreflexive(self.estate@);
            lemma_text_lt_irreflexive(self.hardware@);
        }
        match compare_text(self.estate.as_str(), other.estate.as_str()) {
            TextOrder::Equal => compare_text(self.hardware.as_str(), other.hardware.as_str()),
            o => o,
        }
    }
}

/// The views of a sequence of strings.
pub open spec fn texts_of(v: Seq<String>) -> Seq<Seq<char>> {
    v.map_values(|s: String| s@)
}

/// The allowlist entries that a sequence of comma-separated pieces yields:
/// each piece trimmed, the empty ones dropped, the rest ASCII lower-cased.
pub open spec fn estate_entries(pieces: Seq<Seq<char>>) -> Seq<Seq<char>>
    decreases pieces.len(),
{
    if pieces.len() == 0 {
        Seq::<Seq<char>>::empty()
    } else {
        let r = estate_entries(pieces.drop_last());
        let t = trim(pieces.last());
        if t.len() > 0 {
            r.push(ascii_lower(t))
        } else {
            r
        }
    }
}

/// The estate allowlist that a raw comma-separated setting denotes.
pub open spec fn parsed_estates(raw: Seq<char>) -> Seq<Seq<char>> {
    estate_entries(split_on(raw, ','))
}

/// An allowlist entry as `parse_estates` produces it: not empty, no whitespace
/// at either end, no comma, no ASCII capital.
pub open spec fn clean_estate(e: Seq<char>) -> bool {
    &&& e.len() > 0
    &&& !is_space(e[0])
    &&& !is_space(e.last())
    &&& !e.contains(',')
    &&& forall|i: int| 0 <= i < e.len() ==> !('A' <= #[trigger] e[i] && e[i] <= 'Z')
}

/// Whether an allowlist admits an estate: some entry equals it up to ASCII case.
pub open spec fn allows(allowed: Seq<String>, estate: Seq<char>) -> bool {
    exists|i: int| 0 <= i < allowed.len() && ascii_lower((#[trigger] allowed[i])@) == ascii_lower(estate)
}

/// The targets whose estate the allowlist admits, in their order.
pub open spec fn allowed_targets(ts: Seq<ModelTarget>, allowed: Seq<String>) -> Seq<ModelTarget>
    decreases ts.len(),
{
    if ts.len() == 0 {
        Seq::<ModelTarget>::empty()
    } else {
        let r = allowed_targets(ts.drop_last(), allowed);
        if allows(allowed, ts.last().estate@) {
            r.push(ts.last())
        } else {
            r
        }
    }
}

/// What the estate filter keeps: everything for an empty allowlist,
/// otherwise the admitted targets in their order.
pub open spec fn estate_filter(ts: Seq<ModelTarget>, allowed: Seq<String>) -> Seq<ModelTarget> {
    if allowed.len() == 0 {
        ts
    } else {
        allowed_targets(ts, allowed)
    }
}

/// Appends the allowlist entry of the piece `chars[lo..hi]`, if it has one.
fn push_estate_entry(chars: &Vec<char>, lo: usize, hi: usize, out: &mut Vec<String>)
    requires
        lo <= hi <= chars.len(),
    ensures
        texts_of(final(out)@) == ({
            let t = trim(chars@.subrange(lo as int, hi as int));
            if t.len() > 0 {
                texts_of(old(out)@).push(ascii_lower(t))
            } else {
                texts_of(old(out)@)
            }
        }),
{
    let (a, b) = trimmed_bounds(chars, lo, hi);
    if a < b {
        let e = lower_text_of(chars, a, b);
        out.push(e);
        assert(texts_of(out@) =~= texts_of(old(out)@).push(e@));
    }
}

/// Parses a comma-separated estate allowlist (`"spark, coredump"`): every
/// piece is trimmed and ASCII lower-cased, and empty pieces are dropped. An
/// empty or whitespace-only value yields an empty list, which means "no
/// filtering".
pub fn parse_estates(raw: &str) -> (r: Vec<String>)
    ensures
        texts_of(r@) == parsed_estates(raw@),
{
    let chars = chars_of(raw);
    let mut out: Vec<String> = Vec::new();
    let mut start: usize = 0;
    let mut i: usize = 0;
    let ghost mut done: Seq<Seq<char>> = Seq::empty();
    assert(chars@.take(0) =~= Seq::<char>::empty());
    assert(texts_of(out@) =~= Seq::<Seq<char>>::empty());
    while i < chars.len()
        invariant
            start <= i <= chars.len(),
            split_on(chars@.take(i as int), ',') == done.push(
                chars@.subrange(start as int, i as int),
            ),
            texts_of(out@) == estate_entries(done),
        decreases chars.len() - i,
    {
        let ghost piece = chars@.subrange(start as int, i as int);
        assert(chars@.take(i + 1).drop_last() =~= chars@.take(i as int));
        assert(chars@.take(i + 1).last() == chars@[i as int]);
        if chars[i] == ',' {
            push_estate_entry(&chars, start, i, &mut out);
            proof {
                assert(done.push(piece).drop_last() =~= done);
                done = done.push(piece);
                assert(chars@.subrange(i + 1, i + 1) =~= Seq::<char>::empty());
            }
            start = i + 1;
        } else {
            assert(piece.push(chars@[i as int]) =~= chars@.subrange(start as int, i + 1));
            assert(done.push(piece).update(done.len() as int, piece.push(chars@[i as int]))
                =~= done.push(chars@.subrange(start as int, i + 1)));
        }
        i = i + 1;
    }
    push_estate_entry(&chars, start, chars.len(), &mut out);
    proof {
        let last = chars@.subrange(start as int, chars@.len() as int);
        assert(done.push(last).drop_last() =~= done);
        assert(chars@.take(chars@.len() as int) =~= raw@);
    }
    out
}

/// Whether the allowlist admits `estate`, compared ASCII case-insensitively.
fn estate_allowed(estate: &String, allowed: &[String]) -> (r: bool)
    ensures
        r == allows(allowed@, estate@),
{
    let lower = to_ascii_lower(estate.as_str());
    let mut i: usize = 0;
    while i < allowed.len()
        invariant
            i <= allowed@.len(),
            lower@ == ascii_lower(estate@),
            forall|j: int| 0 <= j < i ==> ascii_lower((#[trigger] allowed@[j])@) != lower@,
        decreases allowed@.len() - i,
    {
        let entry = to_ascii_lower(allowed[i].as_str());
        if entry == lower {
            return true;
        }
        i = i + 1;
    }
    false
}

/// Drops the targets whose estate is not on the allowlist (compared ASCII
/// case-insensitively), keeping the order of the rest. An empty allowlist is a no-op, so the default deployment
/// keeps showing every estate.
pub fn apply_estate_filter(targets: &mut Vec<ModelTarget>, allowed: &[String])
    ensures
        final(targets)@ == estate_filter(old(targets)@, allowed@),
{
    if allowed.len() == 0 {
        return;
    }
    let ghost before = targets@;
    let mut taken: Vec<ModelTarget> = Vec::new();
    std::mem::swap(targets, &mut taken);
    assert(targets@ =~= allowed_targets(before.take(0), allowed@));
    for t in it: taken.into_iter()
        invariant
            it.seq() == before,
            allowed@.len() > 0,
            targets@ == allowed_targets(before.take(it.index() as int), allowed@),
    {
        let ghost prefix = before.take(it.index() as int);
        let keep = estate_allowed(&t.estate, allowed);
        proof {
            assert(before.take(it.index() + 1).drop_last() =~= prefix);
            assert(before.take(it.index() + 1).last() == t);
        }
        if keep {
            targets.push(t);
        }
    }
    assert(before.take(before.len() as int) =~= before);
}

/// What a catalog poll brought back.
pub enum CatalogFetch {
    /// The request could not be sent or answered.
    RequestFailed,
    /// The service answered with an error status.
    ErrorStatus,
    /// The answer was not a catalog.
    InvalidBody,
    /// The targets of the catalog, in the order the service listed them.
    Received(Vec<ModelTarget>),
}

/// Why a poll left the published catalog as it was.
#[derive(Clone, Copy, Debug, PartialEq, Eq, Structural)]
pub enum CatalogProblem {
    RequestFailed,
    ErrorStatus,
    InvalidBody,
}

/// What to do after a catalog poll.
pub enum CatalogUpdate {
    /// Publish these targets in place of the previous catalog.
    Replace(Vec<ModelTarget>),
    /// Keep the previous catalog and report the problem.
    Warn(CatalogProblem),
}

/// The decision taken on each catalog poll: a received catalog is narrowed to
/// the allowlisted estates and listed by estate, then hardware (ties keep the
/// service's order); any failure keeps the previous catalog and is reported.
pub fn next_catalog(fetch: CatalogFetch, estates: &[String]) -> (u: CatalogUpdate)
    ensures
        match fetch {
            CatalogFetch::Received(ts) => u matches CatalogUpdate::Replace(c) && stable_sort_of(
                estate_filter(ts@, estates@),
                c@,
            ),
            CatalogFetch::RequestFailed => u == CatalogUpdate::Warn(CatalogProblem::RequestFailed),
            CatalogFetch::ErrorStatus => u == CatalogUpdate::Warn(CatalogProblem::ErrorStatus),
            CatalogFetch::InvalidBody => u == CatalogUpdate::Warn(CatalogProblem::InvalidBody),
        },
{
    match fetch {
        CatalogFetch::Received(ts) => {
            let mut targets = ts;
            apply_estate_filter(&mut targets, estates);
            CatalogUpdate::Replace(sort_stable(targets))
        },
        CatalogFetch::RequestFailed => CatalogUpdate::Warn(CatalogProblem::RequestFailed),
        CatalogFetch::ErrorStatus => CatalogUpdate::Warn(CatalogProblem::ErrorStatus),
        CatalogFetch::InvalidBody => CatalogUpdate::Warn(CatalogProblem::InvalidBody),
    }
}

// ---------------------------------------------------------------------------
// Laws
// ---------------------------------------------------------------------------

proof fn lemma_entries_clean(pieces: Seq<Seq<char>>)
    requires
        forall|i: int| 0 <= i < pieces.len() ==> !(#[trigger] pieces[i]).contains(','),
    ensures
        forall|i: int|
            0 <= i < estate_entries(pieces).len() ==> clean_estate(
                #[trigger] estate_entries(pieces)[i],
            ),
    decreases pieces.len(),
{
    if pieces.len() > 0 {
        let rest = pieces.drop_last();
        assert forall|i: int| 0 <= i < rest.len() implies !(#[trigger] rest[i]).contains(',') by {
            assert(rest[i] == pieces[i]);
        }
        lemma_entries_clean(rest);
        let p = pieces.last();
        assert(!pieces[pieces.len() - 1].contains(','));
        let t = trim(p);
        if t.len() > 0 {
            let e = ascii_lower(t);
            lemma_trim_shape(p);
            lemma_lower_of_keeps_class(t[0]);
            lemma_lower_of_keeps_class(t[t.len() - 1]);
            assert forall|j: int| 0 <= j < e.len() implies !('A' <= #[trigger] e[j] && e[j]
                <= 'Z') by {
                lemma_lower_of_keeps_class(t[j]);
            }
            assert(!e.contains(',')) by {
                if e.contains(',') {
                    let j = choose|j: int| 0 <= j < e.len() && e[j] == ',';
                    lemma_lower_of_keeps_class(t[j]);
                    let (a, b) = choose|a: int, b: int|
                        0 <= a <= b <= p.len() && trim(p) == p.subrange(a, b) && (forall|i: int|
                            0 <= i < a ==> is_space(#[trigger] p[i])) && (forall|i: int|
                            b <= i < p.len() ==> is_space(#[trigger] p[i]));
                    assert(p[a + j] == t[j]);
                }
            }
            assert(clean_estate(e));
            let r = estate_entries(rest);
            assert forall|i: int| 0 <= i < r.push(e).len() implies clean_estate(
                #[trigger] r.push(e)[i],
            ) by {
                if i < r.len() {
                    assert(r.push(e)[i] == r[i]);
                }
            }
        }
    }
}

/// Every entry that `parse_estates` yields is clean: not empty, without
/// whitespace at either end, without a comma and without an ASCII capital.
pub proof fn law_parsed_estates_are_clean(raw: Seq<char>)
    ensures
        forall|i: int|
            0 <= i < parsed_estates(raw).len() ==> clean_estate(#[trigger] parsed_estates(raw)[i]),
{
    lemma_split_pieces_lack_sep(raw, ',');
    lemma_entries_clean(split_on(raw, ','));
}

proof fn lemma_entries_empty_iff(pieces: Seq<Seq<char>>)
    ensures
        (estate_entries(pieces).len() == 0) <==> (forall|i: int|
            0 <= i < pieces.len() ==> trim(#[trigger] pieces[i]).len() == 0),
    decreases pieces.len(),
{
    if pieces.len() > 0 {
        let rest = pieces.drop_last();
        lemma_entries_empty_iff(rest);
        if forall|i: int| 0 <= i < pieces.len() ==> trim(#[trigger] pieces[i]).len() == 0 {
            assert forall|i: int| 0 <= i < rest.len() implies trim(#[trigger] rest[i]).len()
                == 0 by {
                assert(rest[i] == pieces[i]);
            }
            assert(trim(pieces[pieces.len() - 1]).len() == 0);
        }
        if estate_entries(pieces).len() == 0 {
            assert forall|i: int| 0 <= i < pieces.len() implies trim(#[trigger] pieces[i]).len()
                == 0 by {
                if i < rest.len() {
                    assert(rest[i] == pieces[i]);
                }
            }
        }
    }
}

/// An empty, whitespace-only or comma-and-whitespace-only setting yields an
/// empty allowlist, and only such a setting does.
pub proof fn law_parsed_estates_empty_iff(raw: Seq<char>)
    ensures
        (parsed_estates(raw).len() == 0) <==> (forall|i: int|
            0 <= i < raw.len() ==> #[trigger] raw[i] == ',' || is_space(raw[i])),
{
    let pieces = split_on(raw, ',');
    let p = |c: char| !is_space(c) && c != ',';
    lemma_split_all_empty_iff(raw, ',', p);
    lemma_split_pieces_lack_sep(raw, ',');
    lemma_entries_empty_iff(pieces);
    let all_raw = forall|i: int| 0 <= i < raw.len() ==> #[trigger] raw[i] == ',' || is_space(
        raw[i],
    );
    let all_raw_p = forall|i: int| 0 <= i < raw.len() ==> #[trigger] raw[i] == ',' || !p(raw[i]);
    let all_pieces = forall|i: int, j: int|
        0 <= i < pieces.len() && 0 <= j < pieces[i].len() ==> !p(#[trigger] pieces[i][j]);
    let all_trim = forall|i: int| 0 <= i < pieces.len() ==> trim(#[trigger] pieces[i]).len() == 0;
    assert(all_raw <==> all_raw_p) by {
        if all_raw {
            assert forall|i: int| 0 <= i < raw.len() implies #[trigger] raw[i] == ',' || !p(
                raw[i],
            ) by {}
        }
        if all_raw_p {
            assert forall|i: int| 0 <= i < raw.len() implies #[trigger] raw[i] == ','
                || is_space(raw[i]) by {}
        }
    }
    assert(all_pieces <==> all_trim) by {
        if all_pieces {
            assert forall|i: int| 0 <= i < pieces.len() implies trim(#[trigger] pieces[i]).len()
                == 0 by {
                lemma_trim_empty_iff(pieces[i]);
                assert forall|j: int| 0 <= j < pieces[i].len() implies is_space(
                    #[trigger] pieces[i][j],
                ) by {
                    assert(!p(pieces[i][j]));
                    if pieces[i][j] == ',' {
                        assert(pieces[i].contains(','));
                    }
                }
            }
        }
        if all_trim {
            assert forall|i: int, j: int|
                0 <= i < pieces.len() && 0 <= j < pieces[i].len() implies !p(
                #[trigger] pieces[i][j],
            ) by {
                lemma_trim_empty_iff(pieces[i]);
            }
        }
    }
}

proof fn lemma_entries_of_lowered(pieces: Seq<Seq<char>>)
    ensures
        estate_entries(pieces.map_values(|p: Seq<char>| ascii_lower(p))) == estate_entries(pieces),
    decreases pieces.len(),
{
    let f = |p: Seq<char>| ascii_lower(p);
    if pieces.len() > 0 {
        let rest = pieces.drop_last();
        lemma_entries_of_lowered(rest);
        assert(pieces.map_values(f).drop_last() =~= rest.map_values(f));
        let p = pieces.last();
        assert(pieces.map_values(f).last() == ascii_lower(p));
        lemma_trim_ascii_lower(p);
        lemma_ascii_lower_idempotent(trim(p));
    }
}

/// The ASCII case of the setting never matters: settings that differ only in
/// ASCII case parse to the same allowlist (for instance a setting and its
/// upper- or lower-cased form).
pub proof fn law_setting_case_does_not_matter(a: Seq<char>, b: Seq<char>)
    requires
        ascii_lower(a) == ascii_lower(b),
    ensures
        parsed_estates(a) == parsed_estates(b),
        parsed_estates(ascii_lower(a)) == parsed_estates(a),
{
    assert forall|c: char| (#[trigger] lower_of(c) == ',') <==> c == ',' by {
        lemma_lower_of_keeps_class(c);
    }
    lemma_split_ascii_lower(a, ',');
    lemma_split_ascii_lower(b, ',');
    lemma_entries_of_lowered(split_on(a, ','));
    lemma_entries_of_lowered(split_on(b, ','));
}

/// A setting that is empty, blank or only commas and whitespace means no
/// filtering: the allowlist parsed from it keeps every target, in order.
pub proof fn law_blank_setting_means_no_filtering(
    raw: Seq<char>,
    allowed: Seq<String>,
    ts: Seq<ModelTarget>,
)
    requires
        forall|i: int| 0 <= i < raw.len() ==> #[trigger] raw[i] == ',' || is_space(raw[i]),
        texts_of(allowed) == parsed_estates(raw),
    ensures
        estate_filter(ts, allowed) == ts,
{
    law_parsed_estates_empty_iff(raw);
    assert(texts_of(allowed).len() == allowed.len());
}

/// An empty allowlist keeps every target, in order.
pub proof fn law_empty_allowlist_keeps_everything(ts: Seq<ModelTarget>)
    ensures
        estate_filter(ts, Seq::<String>::empty()) == ts,
{
}

proof fn lemma_allowed_targets_membership(ts: Seq<ModelTarget>, allowed: Seq<String>, t: ModelTarget)
    ensures
        allowed_targets(ts, allowed).contains(t) <==> (ts.contains(t) && allows(
            allowed,
            t.estate@,
        )),
    decreases ts.len(),
{
    if ts.len() > 0 {
        let rest = ts.drop_last();
        lemma_allowed_targets_membership(rest, allowed, t);
        let r = allowed_targets(rest, allowed);
        if ts.contains(t) {
            let j = choose|j: int| 0 <= j < ts.len() && ts[j] == t;
            if j < rest.len() {
                assert(rest[j] == t);
            }
        }
        if rest.contains(t) {
            let j = choose|j: int| 0 <= j < rest.len() && rest[j] == t;
            assert(ts[j] == t);
        }
        if allows(allowed, ts.last().estate@) {
            if r.push(ts.last()).contains(t) {
                let j = choose|j: int| 0 <= j < r.push(ts.last()).len() && r.push(ts.last())[j] == t;
                if j < r.len() {
                    assert(r[j] == t);
                }
            }
            if r.contains(t) {
                let j = choose|j: int| 0 <= j < r.len() && r[j] == t;
                assert(r.push(ts.last())[j] == t);
            }
            assert(r.push(ts.last())[r.len() as int] == ts.last());
        }
    }
}

/// The filter keeps exactly the targets whose estate the allowlist admits
/// (all of them for an empty allowlist).
pub proof fn law_filter_keeps_exactly_the_allowed(
    ts: Seq<ModelTarget>,
    allowed: Seq<String>,
    t: ModelTarget,
)
    ensures
        estate_filter(ts, allowed).contains(t) <==> (ts.contains(t) && (allowed.len() == 0
            || exists|j: int|
            0 <= j < allowed.len() && ascii_lower((#[trigger] allowed[j])@) == ascii_lower(
                t.estate@,
            ))),
{
    lemma_allowed_targets_membership(ts, allowed, t);
}

proof fn lemma_allowed_targets_idempotent(ts: Seq<ModelTarget>, allowed: Seq<String>)
    ensures
        allowed_targets(allowed_targets(ts, allowed), allowed) == allowed_targets(ts, allowed),
    decreases ts.len(),
{
    if ts.len() > 0 {
        let rest = ts.drop_last();
        lemma_allowed_targets_idempotent(rest, allowed);
        let r = allowed_targets(rest, allowed);
        if allows(allowed, ts.last().estate@) {
            assert(r.push(ts.last()).drop_last() =~= r);
        }
    }
}

/// Filtering twice by the same allowlist is filtering once.
pub proof fn law_filter_idempotent(ts: Seq<ModelTarget>, allowed: Seq<String>)
    ensures
        estate_filter(estate_filter(ts, allowed), allowed) == estate_filter(ts, allowed),
{
    lemma_allowed_targets_idempotent(ts, allowed);
}

/// Estate matching ignores ASCII case: estates that differ only in case are
/// admitted or refused alike.
pub proof fn law_estate_matching_ignores_case(allowed: Seq<String>, a: Seq<char>, b: Seq<char>)
    requires
        ascii_lower(a) == ascii_lower(b),
    ensures
        allows(allowed, a) == allows(allowed, b),
{
}

/// A catalog that a poll publishes lists only targets of the received catalog
/// whose estate the allowlist admits (any target for an empty allowlist),
/// ordered by estate and then hardware.
pub proof fn law_published_catalog_is_allowed_and_ordered(
    ts: Seq<ModelTarget>,
    estates: Seq<String>,
    published: Seq<ModelTarget>,
)
    requires
        stable_sort_of(estate_filter(ts, estates), published),
    ensures
        sorted_by_key(published),
        forall|i: int|
            0 <= i < published.len() ==> ts.contains(#[trigger] published[i]) && (estates.len()
                == 0 || exists|j: int|
                0 <= j < estates.len() && ascii_lower((#[trigger] estates[j])@) == ascii_lower(
                    published[i].estate@,
                )),
{
    broadcast use vstd::seq_lib::to_multiset_contains;

    assert forall|i: int| 0 <= i < published.len() implies ts.contains(#[trigger] published[i])
        && (estates.len() == 0 || allows(estates, published[i].estate@)) by {
        let x = published[i];
        assert(published.contains(x));
        assert(published.to_multiset().count(x) > 0);
        assert(estate_filter(ts, estates).contains(x));
        law_filter_keeps_exactly_the_allowed(ts, estates, x);
    }
}

proof fn lemma_allowed_targets_add(a: Seq<ModelTarget>, b: Seq<ModelTarget>, allowed: Seq<String>)
    ensures
        allowed_targets(a + b, allowed) == allowed_targets(a, allowed) + allowed_targets(b, allowed),
    decreases b.len(),
{
    if b.len() == 0 {
        assert(a + b =~= a);
        assert(allowed_targets(a, allowed) + allowed_targets(b, allowed) =~= allowed_targets(
            a,
            allowed,
        ));
    } else {
        lemma_allowed_targets_add(a, b.drop_last(), allowed);
        assert((a + b).drop_last() =~= a + b.drop_last());
        assert((a + b).last() == b.last());
        assert(allowed_targets(a + b, allowed) =~= allowed_targets(a, allowed) + allowed_targets(
            b,
            allowed,
        ));
    }
}

/// Filtering a catalog made of two parts filters each part: the filter keeps
/// the order of the targets and decides each target on its own.
pub proof fn law_filter_works_target_by_target(
    a: Seq<ModelTarget>,
    b: Seq<ModelTarget>,
    allowed: Seq<String>,
)
    ensures
        estate_filter(a + b, allowed) == estate_filter(a, allowed) + estate_filter(b, allowed),
{
    lemma_allowed_targets_add(a, b, allowed);
}

/// A single target is kept exactly when the allowlist is empty or one of its
/// entries equals the target's whole estate up to ASCII case.
pub proof fn law_filter_keeps_a_target_iff_an_entry_equals_its_estate(
    t: ModelTarget,
    allowed: Seq<String>,
)
    ensures
        estate_filter(seq![t], allowed) == if allowed.len() == 0 || exists|j: int|
            0 <= j < allowed.len() && ascii_lower((#[trigger] allowed[j])@) == ascii_lower(
                t.estate@,
            ) {
            seq![t]
        } else {
            Seq::<ModelTarget>::empty()
        },
{
    assert(seq![t].drop_last() =~= Seq::<ModelTarget>::empty());
    assert(seq![t].last() == t);
    assert(allowed_targets(Seq::<ModelTarget>::empty(), allowed) == Seq::<ModelTarget>::empty());
    assert(Seq::<ModelTarget>::empty().push(t) =~= seq![t]);
}

/// A setting without a comma is one piece: it yields its trimmed, lower-cased
/// text, or nothing when it is blank.
pub proof fn law_single_piece_setting(e: Seq<char>)
    requires
        !e.contains(','),
    ensures
        parsed_estates(e) == if trim(e).len() > 0 {
            seq![ascii_lower(trim(e))]
        } else {
            Seq::<Seq<char>>::empty()
        },
{
    lemma_split_without_sep(e, ',');
    assert(seq![e].drop_last() =~= Seq::<Seq<char>>::empty());
    assert(seq![e].last() == e);
    assert(estate_entries(Seq::<Seq<char>>::empty()) == Seq::<Seq<char>>::empty());
    assert(Seq::<Seq<char>>::empty().push(ascii_lower(trim(e))) =~= seq![ascii_lower(trim(e))]);
}

/// Appending `,` and one more piece to a setting appends what that piece
/// yields on its own: every non-blank piece gives an entry, in order.
pub proof fn law_appended_piece_adds_its_entry(raw: Seq<char>, e: Seq<char>)
    requires
        !e.contains(','),
    ensures
        parsed_estates(raw + seq![','] + e) == parsed_estates(raw) + parsed_estates(e),
{
    lemma_split_append_piece(raw, e, ',');
    law_single_piece_setting(e);
    let pieces = split_on(raw, ',');
    assert(pieces.push(e).drop_last() =~= pieces);
    assert(pieces.push(e).last() == e);
    if trim(e).len() > 0 {
        assert(parsed_estates(raw).push(ascii_lower(trim(e))) =~= parsed_estates(raw) + seq![
            ascii_lower(trim(e)),
        ]);
    } else {
        assert(parsed_estates(raw) + Seq::<Seq<char>>::empty() =~= parsed_estates(raw));
    }
}

} // verus!
