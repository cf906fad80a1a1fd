//! Typo tolerance by term expansion rather than by automaton scoring.
//!
//! Each analyzed query token gets an edit budget (`effective_distance`), and
//! the index terms within that budget, enumerated by a Levenshtein automaton,
//! are collected by an `Expansion`: deduplicated, never the token itself,
//! each tagged with the narrowest edit distance that found it, and capped.

use vstd::prelude::*;
use vstd::string::StringSliceAdditionalSpecFns;
use vstd::utf8::{decode_utf8, encode_utf8, valid_utf8};

verus! {

/// Length, in characters, from which a token may be one edit away from a match.
pub const MIN_LEN_D1: usize = 5;

/// Length, in characters, from which a token may be two edits away from a match.
pub const MIN_LEN_D2: usize = 9;

/// `c` is one of the ASCII digits `'0'..='9'`.
pub open spec fn is_ascii_digit(c: char) -> bool {
    '0' <= c && c <= '9'
}

/// Some character of `s` is an ASCII digit.
pub open spec fn has_ascii_digit(s: Seq<char>) -> bool {
    exists|i: int| 0 <= i < s.len() && is_ascii_digit(#[trigger] s[i])
}

/// The edit budget that a token of `len` characters can carry at most.
pub open spec fn length_allowance(len: nat) -> u8 {
    if len >= MIN_LEN_D2 {
        2
    } else if len >= MIN_LEN_D1 {
        1
    } else {
        0
    }
}

pub open spec fn min_u8(a: u8, b: u8) -> u8 {
    if a <= b { a } else { b }
}

/// How many edits `token` is allowed when `requested` were asked for: none
/// when none were asked for or the token holds a digit, otherwise the request
/// narrowed by the token's length.
pub open spec fn spec_effective_distance(token: Seq<char>, requested: u8) -> u8 {
    if requested == 0 || has_ascii_digit(token) {
        0
    } else {
        min_u8(requested, length_allowance(token.len()))
    }
}

/// Whether some character of `s` is an ASCII digit.
fn contains_ascii_digit(s: &str) -> (r: bool)
    ensures
        r == has_ascii_digit(s@),
{
    broadcast use vstd::string::axiom_spec_iter;

    for c in it: s.chars()
        invariant
            it.seq() == s@,
            forall|j: int| 0 <= j < it.index() ==> !is_ascii_digit(#[trigger] s@[j]),
    {
        if '0' <= c && c <= '9' {
            return true;
        }
    }
    false
}

/// How many edits this token is actually allowed, given what was requested.
///
/// A token containing a digit is never fuzzed, and short tokens get a smaller
/// budget: one edit from five characters on, two from nine.
pub fn effective_distance(token: &str, requested: u8) -> (r: u8)
    ensures
        r == spec_effective_distance(token@, requested),
        r <= requested,
        r <= 2,
{
    if requested == 0 {
        return 0;
    }
    if contains_ascii_digit(token) {
        return 0;
    }
    let len = token.unicode_len();
    let allowed: u8 = if len >= MIN_LEN_D2 {
        2
    } else if len >= MIN_LEN_D1 {
        1
    } else {
        0
    };
    let narrowed: u8 = if requested < allowed { requested } else { allowed };
    if narrowed < 2 { narrowed } else { 2 }
}


/// Ceiling on the terms one token may expand to, summed over all segments.
///
/// An unbounded expansion would let a single short token open a large share
/// of the dictionary's posting lists.
pub const MAX_FUZZY_EXPANSIONS: usize = 50;

/// The text that `key` spells, when it is valid UTF-8.
pub open spec fn key_text(key: Seq<u8>) -> Option<Seq<char>> {
    if valid_utf8(key) {
        Some(decode_utf8(key))
    } else {
        None
    }
}

/// Some entry of `terms` has the text `t`.
pub open spec fn has_text(terms: Seq<(u8, Seq<char>)>, t: Seq<char>) -> bool {
    exists|i: int| 0 <= i < terms.len() && (#[trigger] terms[i]).1 == t
}

/// What one enumerated dictionary key, found by the pass of edit distance
/// `offer.0`, does to the alternatives collected so far: a full list, a key
/// that is not UTF-8, the token itself and a text already collected leave
/// them as they are; any other text is appended with that distance.
pub open spec fn expand_step(
    token: Seq<char>,
    terms: Seq<(u8, Seq<char>)>,
    offer: (u8, Seq<u8>),
) -> Seq<(u8, Seq<char>)> {
    if terms.len() >= MAX_FUZZY_EXPANSIONS {
        terms
    } else {
        match key_text(offer.1) {
            None => terms,
            Some(t) => if t == token || has_text(terms, t) {
                terms
            } else {
                terms.push((offer.0, t))
            },
        }
    }
}

/// The alternatives collected for `token` from the keys `offers`, in the
/// order in which the passes enumerated them.
pub open spec fn expand_offers(token: Seq<char>, offers: Seq<(u8, Seq<u8>)>) -> Seq<(u8, Seq<char>)>
    decreases offers.len(),
{
    if offers.len() == 0 {
        Seq::empty()
    } else {
        expand_step(token, expand_offers(token, offers.drop_last()), offers.last())
    }
}

/// The keys were offered pass by pass, in order of growing edit distance.
pub open spec fn passes_in_order(offers: Seq<(u8, Seq<u8>)>) -> bool {
    forall|a: int, b: int|
        0 <= a < b < offers.len() ==> (#[trigger] offers[a]).0 <= (#[trigger] offers[b]).0
}

/// One alternative to a query token: an indexed term and the edit distance
/// of the narrowest pass that found it.
pub struct FuzzyTerm {
    pub distance: u8,
    pub text: String,
}

impl View for FuzzyTerm {
    type V = (u8, Seq<char>);

    open spec fn view(&self) -> (u8, Seq<char>) {
        (self.distance, self.text@)
    }
}

/// The terms that stand for one analyzed token in the query.
pub enum Alternatives {
    /// Nothing expanded: the exact term alone, as in a query without typos.
    ExactOnly,
    /// The exact term, and beside it each of these alternatives.
    ExactOrFuzzy(Vec<FuzzyTerm>),
}

/// The views of a list of alternatives.
pub open spec fn term_views(v: Seq<FuzzyTerm>) -> Seq<(u8, Seq<char>)> {
    v.map_values(|t: FuzzyTerm| t@)
}

/// `std::str::from_utf8`: a string slice exactly when the bytes are valid
/// UTF-8, and then one that views those very bytes.
#[verifier::external_body]
fn utf8_text<'a>(bytes: &'a [u8]) -> (r: Option<&'a str>)
    ensures
        r is Some <==> valid_utf8(bytes@),
        r matches Some(s) ==> s.spec_bytes() == bytes@,
{
    match std::str::from_utf8(bytes) {
        Ok(s) => Some(s),
        Err(_) => None,
    }
}

/// Whether two byte slices hold the same bytes.
fn same_bytes(a: &[u8], b: &[u8]) -> (r: bool)
    ensures
        r == (a@ == b@),
{
    if a.len() != b.len() {
        return false;
    }
    let n = a.len();
    let mut i: usize = 0;
    while i < n
        invariant
            n == a@.len(),
            n == b@.len(),
            i <= n,
            forall|j: int| 0 <= j < i ==> a@[j] == b@[j],
        decreases n - i,
    {
        if a[i] != b[i] {
            return false;
        }
        i = i + 1;
    }
    assert(a@ =~= b@);
    true
}

/// The text of `key`, when it is valid UTF-8: the characters it encodes,
/// taken only once the slice's own bytes have been found to be the key's.
fn decode_key(key: &[u8]) -> (r: Option<String>)
    ensures
        r matches Some(t) ==> valid_utf8(key@) && t@ == decode_utf8(key@),
        r is None ==> !valid_utf8(key@),
{
    match utf8_text(key) {
        None => None,
        Some(s) => {
            if same_bytes(s.as_bytes(), key) {
                proof {
                    broadcast use vstd::utf8::encode_utf8_decode_utf8;
                    assert(decode_utf8(encode_utf8(s@)) == s@);
                }
                Some(s.to_owned())
            } else {
                None
            }
        },
    }
}

/// The terms within a token's edit budget, collected while the term
/// dictionaries are streamed through Levenshtein automata of growing distance.
pub struct Expansion {
    token: String,
    max_distance: u8,
    terms: Vec<FuzzyTerm>,
    offers: Ghost<Seq<(u8, Seq<u8>)>>,
}

impl Expansion {
    /// The token whose alternatives are collected.
    pub closed spec fn token(&self) -> Seq<char> {
        self.token@
    }

    /// The edit budget of the token: the widest pass that may run.
    pub closed spec fn max_distance(&self) -> u8 {
        self.max_distance
    }

    /// The alternatives collected so far, in order.
    pub closed spec fn terms(&self) -> Seq<(u8, Seq<char>)> {
        term_views(self.terms@)
    }

    /// Every key offered so far, with the distance of the pass that found it.
    pub closed spec fn offers(&self) -> Seq<(u8, Seq<u8>)> {
        self.offers@
    }

    /// The alternatives are what the offered keys give, every key came from
    /// a pass within the budget, and the passes ran narrowest first.
    pub open spec fn wf(&self) -> bool {
        &&& self.terms() == expand_offers(self.token(), self.offers())
        &&& forall|j: int|
            0 <= j < self.offers().len() ==> 1 <= (#[trigger] self.offers()[j]).0
                <= self.max_distance()
        &&& passes_in_order(self.offers())
    }

    /// Starts collecting the alternatives of `token`, whose budget is
    /// `max_distance` edits.
    pub fn new(token: &str, max_distance: u8) -> (e: Self)
        ensures
            e.wf(),
            e.token() == token@,
            e.max_distance() == max_distance,
            e.offers() == Seq::<(u8, Seq<u8>)>::empty(),
            e.terms() == Seq::<(u8, Seq<char>)>::empty(),
    {
        let e = Expansion {
            token: token.to_string(),
            max_distance,
            terms: Vec::new(),
            offers: Ghost(Seq::empty()),
        };
        proof {
            assert(e.terms() =~= Seq::<(u8, Seq<char>)>::empty());
        }
        e
    }

    /// Whether some alternative collected so far has the text `t`.
    fn holds_text(&self, t: &String) -> (r: bool)
        ensures
            r == has_text(self.terms(), t@),
    {
        let n = self.terms.len();
        let mut i: usize = 0;
        while i < n
            invariant
                n == self.terms@.len(),
                i <= n,
                self.terms().len() == n,
                forall|k: int| 0 <= k < i ==> (#[trigger] self.terms()[k]).1 != t@,
            decreases n - i,
        {
            if self.terms[i].text == *t {
                assert(self.terms()[i as int].1 == t@);
                return true;
            }
            i = i + 1;
        }
        false
    }

    /// Takes one dictionary key that the pass of edit distance `distance`
    /// matched, and tells whether the ceiling has now been reached, after
    /// which no more keys are taken. Passes run narrowest first: a key never
    /// comes from a narrower pass than the key before it.
    pub fn offer(&mut self, distance: u8, key: &[u8]) -> (full: bool)
        requires
            old(self).wf(),
            old(self).terms().len() < MAX_FUZZY_EXPANSIONS,
            1 <= distance <= old(self).max_distance(),
            old(self).offers().len() > 0 ==> old(self).offers().last().0 <= distance,
        ensures
            final(self).wf(),
            final(self).token() == old(self).token(),
            final(self).max_distance() == old(self).max_distance(),
            final(self).offers() == old(self).offers().push((distance, key@)),
            final(self).terms() == expand_step(old(self).token(), old(self).terms(), (distance, key@)),
            full == (final(self).terms().len() >= MAX_FUZZY_EXPANSIONS),
    {
        let ghost old_offers = self.offers@;
        let ghost offer = (distance, key@);
        proof {
            self.offers = Ghost(old_offers.push(offer));
            assert(self.offers@.drop_last() =~= old_offers);
        }
        match decode_key(key) {
            None => {},
            Some(text) => {
                if !(text == self.token) && !self.holds_text(&text) {
                    let ghost before = self.terms@;
                    self.terms.push(FuzzyTerm { distance, text });
                    proof {
                        assert(term_views(self.terms@) =~= term_views(before).push((distance, key_text(key@)->0)));
                    }
                }
            },
        }
        self.terms.len() >= MAX_FUZZY_EXPANSIONS
    }

    /// The number of alternatives collected so far.
    pub fn len(&self) -> (n: usize)
        ensures
            n == self.terms().len(),
    {
        self.terms.len()
    }

    /// Ends the collection: the exact term alone when nothing expanded, so
    /// that a query without typos is the plain one, else the exact term and
    /// every alternative, in the order found.
    pub fn finish(self) -> (a: Alternatives)
        ensures
            match a {
                Alternatives::ExactOnly => self.terms().len() == 0,
                Alternatives::ExactOrFuzzy(v) => self.terms().len() > 0 && term_views(v@) == self.terms(),
            },
    {
        if self.terms.len() == 0 {
            Alternatives::ExactOnly
        } else {
            Alternatives::ExactOrFuzzy(self.terms)
        }
    }
}

/// A request for fewer edits is still honoured: the budget is the request
/// capped by what the token itself allows, which is its budget at the widest
/// request.
pub proof fn lemma_budget_is_capped_request(token: Seq<char>, requested: u8)
    ensures
        spec_effective_distance(token, requested) == min_u8(
            requested,
            spec_effective_distance(token, 2),
        ),
{
}

/// Asking for more edits never gives a token fewer.
pub proof fn lemma_budget_monotone(token: Seq<char>, r1: u8, r2: u8)
    requires
        r1 <= r2,
    ensures
        spec_effective_distance(token, r1) <= spec_effective_distance(token, r2),
{
}

/// A budget, asked for again, is granted unchanged.
pub proof fn lemma_budget_idempotent(token: Seq<char>, requested: u8)
    ensures
        spec_effective_distance(token, spec_effective_distance(token, requested))
            == spec_effective_distance(token, requested),
{
}

/// A longer token never gets a smaller budget than a shorter one, when
/// neither holds a digit.
pub proof fn lemma_budget_grows_with_length(t1: Seq<char>, t2: Seq<char>, requested: u8)
    requires
        t1.len() <= t2.len(),
        !has_ascii_digit(t1),
        !has_ascii_digit(t2),
    ensures
        spec_effective_distance(t1, requested) <= spec_effective_distance(t2, requested),
{
}

/// Each step keeps what was collected and at most appends to it.
proof fn lemma_step_extends(token: Seq<char>, terms: Seq<(u8, Seq<char>)>, offer: (u8, Seq<u8>))
    ensures
        terms.len() <= expand_step(token, terms, offer).len() <= terms.len() + 1,
        expand_step(token, terms, offer).subrange(0, terms.len() as int) == terms,
{
    match key_text(offer.1) {
        Some(t) => {
            assert(terms.push((offer.0, t)).subrange(0, terms.len() as int) =~= terms);
        },
        None => {},
    }
    assert(terms.subrange(0, terms.len() as int) =~= terms);
}

/// The alternatives collected from a prefix of the keys are a prefix of
/// those collected from all of them: later keys only ever append.
pub proof fn lemma_prefix_extends(token: Seq<char>, offers: Seq<(u8, Seq<u8>)>, n: int)
    requires
        0 <= n <= offers.len(),
    ensures
        expand_offers(token, offers.subrange(0, n)).len() <= expand_offers(token, offers).len(),
        expand_offers(token, offers).subrange(0, expand_offers(token, offers.subrange(0, n)).len() as int)
            == expand_offers(token, offers.subrange(0, n)),
    decreases offers.len() - n,
{
    if n == offers.len() {
        assert(offers.subrange(0, n) =~= offers);
        let r = expand_offers(token, offers);
        assert(r.subrange(0, r.len() as int) =~= r);
    } else {
        lemma_prefix_extends(token, offers, n + 1);
        let p = offers.subrange(0, n + 1);
        assert(p.drop_last() =~= offers.subrange(0, n));
        lemma_step_extends(token, expand_offers(token, offers.subrange(0, n)), p.last());
        let a = expand_offers(token, offers.subrange(0, n));
        let b = expand_offers(token, p);
        let c = expand_offers(token, offers);
        assert(c.subrange(0, a.len() as int) =~= b.subrange(0, a.len() as int));
    }
}

/// What the collected alternatives are, whatever keys were offered: at most
/// the ceiling, never the token itself, no text twice, and each one the text
/// of a key offered at its distance, the first key to spell it.
pub proof fn lemma_expansion_shape(token: Seq<char>, offers: Seq<(u8, Seq<u8>)>)
    ensures
        expand_offers(token, offers).len() <= MAX_FUZZY_EXPANSIONS,
        forall|k: int|
            0 <= k < expand_offers(token, offers).len() ==> (#[trigger] expand_offers(
                token,
                offers,
            )[k]).1 != token,
        forall|k1: int, k2: int|
            0 <= k1 < k2 < expand_offers(token, offers).len() ==> (#[trigger] expand_offers(
                token,
                offers,
            )[k1]).1 != (#[trigger] expand_offers(token, offers)[k2]).1,
        forall|k: int|
            0 <= k < expand_offers(token, offers).len() ==> exists|j: int|
                0 <= j < offers.len() && (#[trigger] offers[j]).0 == (#[trigger] expand_offers(
                    token,
                    offers,
                )[k]).0 && key_text(offers[j].1) == Some(expand_offers(token, offers)[k].1)
                    && forall|i: int|
                    0 <= i < j ==> key_text((#[trigger] offers[i]).1) != Some(
                        expand_offers(token, offers)[k].1,
                    ),
    decreases offers.len(),
{
    if offers.len() > 0 {
        let prev = offers.drop_last();
        lemma_expansion_shape(token, prev);
        let a = expand_offers(token, prev);
        let r = expand_offers(token, offers);
        let o = offers.last();
        assert forall|k: int| 0 <= k < a.len() implies exists|j: int|
            0 <= j < offers.len() && (#[trigger] offers[j]).0 == (#[trigger] r[k]).0 && key_text(offers[j].1)
                == Some(r[k].1) && forall|i: int|
                0 <= i < j ==> key_text((#[trigger] offers[i]).1) != Some(r[k].1) by {
            let j = choose|j: int|
                0 <= j < prev.len() && (#[trigger] prev[j]).0 == a[k].0 && key_text(prev[j].1)
                    == Some(a[k].1) && forall|i: int|
                    0 <= i < j ==> key_text((#[trigger] prev[i]).1) != Some(a[k].1);
            assert(r[k] == a[k]);
            assert(offers[j] == prev[j]);
            assert forall|i: int| 0 <= i < j implies key_text((#[trigger] offers[i]).1) != Some(
                r[k].1,
            ) by {
                assert(offers[i] == prev[i]);
            }
        }
        if r.len() > a.len() {
            let t = key_text(o.1)->0;
            assert(r == a.push((o.0, t)));
            let j = offers.len() - 1;
            assert(offers[j] == o);
            assert forall|i: int| 0 <= i < j implies key_text((#[trigger] offers[i]).1) != Some(
                t,
            ) by {
                if key_text(offers[i].1) == Some(t) {
                    assert(offers[i] == prev[i]);
                    assert(t != token);
                    assert(!has_text(a, t));
                    lemma_text_kept(token, prev, i);
                }
            }
        }
    }
}

/// A text that the keys spell is collected, or was the token, or the
/// ceiling was reached by then.
proof fn lemma_text_kept(token: Seq<char>, offers: Seq<(u8, Seq<u8>)>, j: int)
    requires
        0 <= j < offers.len(),
        key_text(offers[j].1) is Some,
    ensures
        key_text(offers[j].1)->0 == token || has_text(
            expand_offers(token, offers),
            key_text(offers[j].1)->0,
        ) || expand_offers(token, offers).len() >= MAX_FUZZY_EXPANSIONS,
    decreases offers.len(),
{
    let t = key_text(offers[j].1)->0;
    let prev = offers.drop_last();
    let a = expand_offers(token, prev);
    let r = expand_offers(token, offers);
    lemma_step_extends(token, a, offers.last());
    if j < offers.len() - 1 {
        assert(prev[j] == offers[j]);
        lemma_text_kept(token, prev, j);
        if has_text(a, t) {
            let k = choose|k: int| 0 <= k < a.len() && (#[trigger] a[k]).1 == t;
            assert(r.subrange(0, a.len() as int)[k] == a[k]);
            assert(r[k] == a[k]);
        }
    } else {
        assert(offers.last() == offers[j]);
        if !(t == token) && !has_text(a, t) && a.len() < MAX_FUZZY_EXPANSIONS {
            assert(r == a.push((offers[j].0, t)));
            assert(r[a.len() as int].1 == t);
        }
    }
}

/// Distances come from the narrowest pass: when the passes ran in order of
/// growing distance, each alternative carries the smallest distance of all
/// the keys that spell its text.
pub proof fn lemma_narrowest_distance(token: Seq<char>, offers: Seq<(u8, Seq<u8>)>, k: int, j: int)
    requires
        passes_in_order(offers),
        0 <= k < expand_offers(token, offers).len(),
        0 <= j < offers.len(),
        key_text(offers[j].1) == Some(expand_offers(token, offers)[k].1),
    ensures
        expand_offers(token, offers)[k].0 <= offers[j].0,
{
    lemma_expansion_shape(token, offers);
    let r = expand_offers(token, offers);
    let j0 = choose|j0: int|
        0 <= j0 < offers.len() && (#[trigger] offers[j0]).0 == r[k].0 && key_text(offers[j0].1)
            == Some(r[k].1) && forall|i: int|
            0 <= i < j0 ==> key_text((#[trigger] offers[i]).1) != Some(r[k].1);
    if j < j0 {
        assert(key_text(offers[j].1) != Some(r[k].1));
    }
    if j0 < j {
        assert(offers[j0].0 <= offers[j].0);
    }
}

/// When the passes ran in order of growing distance, the alternatives come
/// out in order of growing distance too, none wider than the last pass.
pub proof fn lemma_terms_in_pass_order(token: Seq<char>, offers: Seq<(u8, Seq<u8>)>)
    requires
        passes_in_order(offers),
    ensures
        forall|k1: int, k2: int|
            0 <= k1 < k2 < expand_offers(token, offers).len() ==> (#[trigger] expand_offers(
                token,
                offers,
            )[k1]).0 <= (#[trigger] expand_offers(token, offers)[k2]).0,
        offers.len() > 0 ==> forall|k: int|
            0 <= k < expand_offers(token, offers).len() ==> (#[trigger] expand_offers(
                token,
                offers,
            )[k]).0 <= offers.last().0,
    decreases offers.len(),
{
    if offers.len() > 0 {
        let prev = offers.drop_last();
        assert forall|a: int, b: int| 0 <= a < b < prev.len() implies (#[trigger] prev[a]).0
            <= (#[trigger] prev[b]).0 by {
            assert(prev[a] == offers[a] && prev[b] == offers[b]);
        }
        lemma_terms_in_pass_order(token, prev);
        let a = expand_offers(token, prev);
        let r = expand_offers(token, offers);
        lemma_step_extends(token, a, offers.last());
        assert forall|k: int| 0 <= k < a.len() implies (#[trigger] a[k]).0 <= offers.last().0 by {
            if prev.len() > 0 {
                assert(prev.last() == offers[prev.len() - 1]);
            } else {
                assert(a.len() == 0);
            }
        }
        assert forall|k: int| 0 <= k < a.len() implies r[k] == a[k] by {
            assert(r.subrange(0, a.len() as int)[k] == r[k]);
        }
        if r.len() > a.len() {
            assert(r == a.push((offers.last().0, key_text(offers.last().1)->0)));
        }
    }
}

/// The ceiling only cuts off the widest pass it reached: every text that a
/// key of a strictly narrower pass spells, other than the token, is among
/// the alternatives. Short of the ceiling nothing is cut off at all.
pub proof fn lemma_ceiling_keeps_narrower(token: Seq<char>, offers: Seq<(u8, Seq<u8>)>, j: int)
    requires
        passes_in_order(offers),
        0 <= j < offers.len(),
        key_text(offers[j].1) is Some,
        key_text(offers[j].1)->0 != token,
        expand_offers(token, offers).len() < MAX_FUZZY_EXPANSIONS || offers[j].0
            < expand_offers(token, offers).last().0,
    ensures
        has_text(expand_offers(token, offers), key_text(offers[j].1)->0),
{
    let r = expand_offers(token, offers);
    let t = key_text(offers[j].1)->0;
    let p = offers.subrange(0, j + 1);
    let q = expand_offers(token, p);
    lemma_prefix_extends(token, offers, j + 1);
    assert(p[j] == offers[j]);
    lemma_text_kept(token, p, j);
    lemma_expansion_shape(token, offers);
    if q.len() >= MAX_FUZZY_EXPANSIONS {
        // Then q is all of r, so r's last term came from a key at or before j.
        assert(r.subrange(0, q.len() as int) =~= r);
        assert(q == r);
        lemma_expansion_shape(token, p);
        let k = q.len() - 1;
        let j0 = choose|j0: int|
            0 <= j0 < p.len() && (#[trigger] p[j0]).0 == q[k].0 && key_text(p[j0].1) == Some(
                q[k].1,
            ) && forall|i: int| 0 <= i < j0 ==> key_text((#[trigger] p[i]).1) != Some(q[k].1);
        assert(p[j0] == offers[j0]);
        if j0 < j {
            assert(offers[j0].0 <= offers[j].0);
        }
        assert(false);
    }
    let i = choose|i: int| 0 <= i < q.len() && (#[trigger] q[i]).1 == t;
    assert(r.subrange(0, q.len() as int)[i] == r[i]);
    assert(r[i].1 == t);
}

/// Every alternative of a well-formed expansion carries the narrowest
/// distance at which any offered key spells it.
pub proof fn lemma_expansion_narrowest(e: Expansion, k: int, j: int)
    requires
        e.wf(),
        0 <= k < e.terms().len(),
        0 <= j < e.offers().len(),
        key_text(e.offers()[j].1) == Some(e.terms()[k].1),
    ensures
        e.terms()[k].0 <= e.offers()[j].0,
{
    lemma_narrowest_distance(e.token(), e.offers(), k, j);
}

/// The alternatives of a well-formed expansion stand in order of growing
/// distance.
pub proof fn lemma_expansion_in_pass_order(e: Expansion, k1: int, k2: int)
    requires
        e.wf(),
        0 <= k1 < k2 < e.terms().len(),
    ensures
        e.terms()[k1].0 <= e.terms()[k2].0,
{
    lemma_terms_in_pass_order(e.token(), e.offers());
}

/// Of a well-formed expansion, every offered text other than the token is
/// collected, unless the ceiling was reached, and even then every text of a
/// pass narrower than the last alternative's is.
pub proof fn lemma_expansion_keeps_narrower(e: Expansion, j: int)
    requires
        e.wf(),
        0 <= j < e.offers().len(),
        key_text(e.offers()[j].1) is Some,
        key_text(e.offers()[j].1)->0 != e.token(),
        e.terms().len() < MAX_FUZZY_EXPANSIONS || e.offers()[j].0 < e.terms().last().0,
    ensures
        has_text(e.terms(), key_text(e.offers()[j].1)->0),
{
    lemma_ceiling_keeps_narrower(e.token(), e.offers(), j);
}

/// Once the ceiling is reached the alternatives are final: whatever keys
/// come after change nothing.
pub proof fn lemma_ceiling_is_final(
    token: Seq<char>,
    offers: Seq<(u8, Seq<u8>)>,
    more: Seq<(u8, Seq<u8>)>,
)
    requires
        expand_offers(token, offers).len() >= MAX_FUZZY_EXPANSIONS,
    ensures
        expand_offers(token, offers + more) == expand_offers(token, offers),
    decreases more.len(),
{
    if more.len() == 0 {
        assert(offers + more =~= offers);
    } else {
        let m = more.drop_last();
        lemma_ceiling_is_final(token, offers, m);
        assert((offers + more).drop_last() =~= offers + m);
    }
}

/// A key whose text was already collected, or that spells the token, changes
/// nothing, whatever the distance of the pass that found it again.
pub proof fn lemma_repeat_changes_nothing(
    token: Seq<char>,
    terms: Seq<(u8, Seq<char>)>,
    offer: (u8, Seq<u8>),
)
    requires
        key_text(offer.1) is Some,
        key_text(offer.1)->0 == token || has_text(terms, key_text(offer.1)->0),
    ensures
        expand_step(token, terms, offer) == terms,
{
}

/// A token holding a digit, or shorter than five characters, given the
/// budget `effective_distance` grants it, never collects an alternative.
pub proof fn lemma_unfuzzable_token_stays_exact(e: Expansion, requested: u8)
    requires
        e.wf(),
        e.max_distance() == spec_effective_distance(e.token(), requested),
        has_ascii_digit(e.token()) || e.token().len() < MIN_LEN_D1,
    ensures
        e.terms().len() == 0,
{
    lemma_no_budget_no_terms(e);
}

/// An expansion with no budget collects nothing.
pub proof fn lemma_no_budget_no_terms(e: Expansion)
    requires
        e.wf(),
        e.max_distance() == 0,
    ensures
        e.terms().len() == 0,
{
    if e.offers().len() > 0 {
        assert(1 <= e.offers()[0].0 <= e.max_distance());
    }
}

/// Whatever keys were offered, the alternatives of a well-formed expansion
/// lie within its budget and at least one edit away.
pub proof fn lemma_distances_within_budget(e: Expansion, k: int)
    requires
        e.wf(),
        0 <= k < e.terms().len(),
    ensures
        1 <= e.terms()[k].0 <= e.max_distance(),
{
    lemma_expansion_shape(e.token(), e.offers());
    let offers = e.offers();
    let r = expand_offers(e.token(), offers);
    let j = choose|j: int|
        0 <= j < offers.len() && (#[trigger] offers[j]).0 == r[k].0 && key_text(offers[j].1)
            == Some(r[k].1) && forall|i: int|
            0 <= i < j ==> key_text((#[trigger] offers[i]).1) != Some(r[k].1);
}

/// Any ASCII digit anywhere in a token, the last character included, takes
/// its whole budget away, whatever was requested.
pub proof fn lemma_any_digit_blocks_fuzzing(token: Seq<char>, requested: u8, i: int)
    requires
        0 <= i < token.len(),
        '0' <= token[i] <= '9',
    ensures
        spec_effective_distance(token, requested) == 0,
{
    assert(is_ascii_digit(token[i]));
}

/// A token without ASCII digits gets the request, capped at no edit below
/// five characters, one edit from five to eight and two from nine on.
pub proof fn lemma_digit_free_budget(token: Seq<char>, requested: u8)
    requires
        forall|i: int| 0 <= i < token.len() ==> !('0' <= #[trigger] token[i] <= '9'),
    ensures
        spec_effective_distance(token, requested) == (if token.len() < 5 {
            0
        } else if token.len() < 9 {
            if requested < 1 { requested } else { 1 }
        } else {
            if requested < 2 { requested } else { 2 }
        }),
{
    if has_ascii_digit(token) {
        let i = choose|i: int| 0 <= i < token.len() && is_ascii_digit(#[trigger] token[i]);
        assert(!('0' <= token[i] <= '9'));
    }
}

/// Below the ceiling of fifty, a key that is valid UTF-8, whose text is
/// neither the token nor already collected, is appended with the distance
/// of its pass, whatever its length; a key that is not valid UTF-8 changes
/// nothing; and at fifty nothing changes any more.
pub proof fn lemma_new_text_is_appended(
    token: Seq<char>,
    terms: Seq<(u8, Seq<char>)>,
    distance: u8,
    key: Seq<u8>,
)
    ensures
        terms.len() >= 50 ==> expand_step(token, terms, (distance, key)) == terms,
        terms.len() < 50 && valid_utf8(key) && decode_utf8(key) != token && (forall|i: int|
            0 <= i < terms.len() ==> (#[trigger] terms[i]).1 != decode_utf8(key))
            ==> expand_step(token, terms, (distance, key)) == terms.push((distance, decode_utf8(key))),
        !valid_utf8(key) ==> expand_step(token, terms, (distance, key)) == terms,
{
}

} // verus!
