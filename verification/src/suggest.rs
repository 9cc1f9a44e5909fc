use vstd::prelude::*;
use vstd::relations::*;
use vstd::string::*;

use crate::text;

verus! {

broadcast use vstd::seq_lib::group_to_multiset_ensures;

// ---------------------------------------------------------------------------
// Edit distance
// ---------------------------------------------------------------------------

/// The Damerau–Levenshtein distance (unrestricted: substrings may be edited
/// any number of times) between two character sequences, as
/// `strsim::damerau_levenshtein` computes it.
pub uninterp spec fn damerau_levenshtein_distance(a: Seq<char>, b: Seq<char>) -> nat;

/// Calls `strsim::damerau_levenshtein`. Its result is the distance named by
/// `damerau_levenshtein_distance`, counted over `char`s; it is 0 exactly when
/// the two strings are equal (strsim documents its normalized form as 1.0
/// "where the strings are the same", and the distance as a metric).
#[verifier::external_body]
fn edit_distance(a: &str, b: &str) -> (d: usize)
    ensures
        d as nat == damerau_levenshtein_distance(a@, b@),
        (d == 0) == (a@ == b@),
{
    strsim::damerau_levenshtein(a, b)
}

// ---------------------------------------------------------------------------
// Results
// ---------------------------------------------------------------------------

/// The outcome of looking for a mistyped command among the known ones.
#[derive(Debug, PartialEq)]
pub enum SuggestResult {
    /// One unambiguous correction of a command of at least three bytes: run it.
    ConfidentCorrect(String),
    /// One unambiguous correction of a shorter command: run it only if the
    /// user asked for automatic correction.
    AutoCorrect(String),
    /// The closest candidates, best first.
    Suggestions(Vec<String>),
    /// No candidate is close enough.
    NoMatch,
}

/// The mathematical value of a `SuggestResult`.
pub enum Suggestion {
    ConfidentCorrect(Seq<char>),
    AutoCorrect(Seq<char>),
    Suggestions(Seq<Seq<char>>),
    NoMatch,
}

impl View for SuggestResult {
    type V = Suggestion;

    open spec fn view(&self) -> Suggestion {
        match self {
            SuggestResult::ConfidentCorrect(s) => Suggestion::ConfidentCorrect(s@),
            SuggestResult::AutoCorrect(s) => Suggestion::AutoCorrect(s@),
            SuggestResult::Suggestions(v) => Suggestion::Suggestions(
                v@.map_values(|s: String| s@),
            ),
            SuggestResult::NoMatch => Suggestion::NoMatch,
        }
    }
}

// ---------------------------------------------------------------------------
// The rule
// ---------------------------------------------------------------------------

/// A candidate name with its distance from the typed command.
pub type Scored = (Seq<char>, nat);

/// A candidate counts as a match when it differs from the command and lies
/// within `max_distance` edits of it.
pub open spec fn is_match(p: Scored, max_distance: nat) -> bool {
    0 < p.1 && p.1 <= max_distance
}

/// Ranking order: closer first, then by name.
pub open spec fn rank_le(a: Scored, b: Scored) -> bool {
    a.1 < b.1 || (a.1 == b.1 && text::text_le(a.0, b.0))
}

/// The matches among `scored`, in the order given.
pub open spec fn matches_of(scored: Seq<Scored>, max_distance: nat) -> Seq<Scored> {
    scored.filter(|p: Scored| is_match(p, max_distance))
}

/// The matches at distance exactly 1.
pub open spec fn nearest_of(m: Seq<Scored>) -> Seq<Scored> {
    m.filter(|p: Scored| p.1 == 1)
}

/// The matches sorted by `rank_le`.
pub open spec fn ranking(m: Seq<Scored>) -> Seq<Scored> {
    m.sort_by(|a: Scored, b: Scored| rank_le(a, b))
}

/// The decision, given each candidate's distance from a command whose UTF-8
/// encoding has `cmd_bytes` bytes: no match at all; exactly one match at
/// distance 1 (a correction, confident when the command has at least three
/// bytes); otherwise the first `max_suggestions` matches in ranking order.
pub open spec fn decide_suggestion(
    cmd_bytes: nat,
    scored: Seq<Scored>,
    max_distance: nat,
    max_suggestions: nat,
) -> Suggestion {
    let m = matches_of(scored, max_distance);
    let ones = nearest_of(m);
    if m.len() == 0 {
        Suggestion::NoMatch
    } else if ones.len() == 1 {
        if cmd_bytes >= 3 {
            Suggestion::ConfidentCorrect(ones[0].0)
        } else {
            Suggestion::AutoCorrect(ones[0].0)
        }
    } else {
        let r = ranking(m);
        let k = if max_suggestions < r.len() {
            max_suggestions as int
        } else {
            r.len() as int
        };
        Suggestion::Suggestions(r.take(k).map_values(|p: Scored| p.0))
    }
}

/// The length that `str::len` reports for a string with characters `s`: the
/// number of bytes of its UTF-8 encoding.
pub open spec fn byte_len(s: Seq<char>) -> nat {
    (vstd::utf8::encode_utf8(s).len() as usize) as nat
}

pub open spec fn abs_diff(a: nat, b: nat) -> nat {
    if a >= b {
        (a - b) as nat
    } else {
        (b - a) as nat
    }
}

/// The candidates whose byte length is within `max_distance` of the
/// command's, each with its edit distance from the command.
pub open spec fn score_candidates(cmd: Seq<char>, candidates: Seq<Seq<char>>, max_distance: nat) -> Seq<
    Scored,
> {
    candidates.filter(
        |c: Seq<char>| abs_diff(byte_len(cmd), byte_len(c)) <= max_distance,
    ).map_values(|c: Seq<char>| (c, damerau_levenshtein_distance(cmd, c)))
}

pub open spec fn scored_view(v: Seq<(String, usize)>) -> Seq<Scored> {
    v.map_values(|p: (String, usize)| (p.0@, p.1 as nat))
}

pub open spec fn names_view(v: Seq<String>) -> Seq<Seq<char>> {
    v.map_values(|s: String| s@)
}

// ---------------------------------------------------------------------------
// Proofs about the order
// ---------------------------------------------------------------------------

pub proof fn lemma_rank_le_transitive(a: Scored, b: Scored, c: Scored)
    requires
        rank_le(a, b),
        rank_le(b, c),
    ensures
        rank_le(a, c),
{
    if a.1 == b.1 && b.1 == c.1 {
        text::lemma_text_le_transitive(a.0, b.0, c.0);
    }
}

pub proof fn lemma_rank_le_total(a: Scored, b: Scored)
    ensures
        rank_le(a, b) || rank_le(b, a),
{
    text::lemma_text_le_total(a.0, b.0);
}

pub proof fn lemma_rank_le_total_ordering()
    ensures
        total_ordering(|a: Scored, b: Scored| rank_le(a, b)),
{
    assert forall|a: Scored, b: Scored| #[trigger] rank_le(a, b) && #[trigger] rank_le(b, a) implies a
        == b by {
        text::lemma_text_le_antisymmetric(a.0, b.0);
    }
    assert forall|a: Scored, b: Scored, c: Scored| #[trigger] rank_le(a, b) && #[trigger] rank_le(
        b,
        c,
    ) implies rank_le(a, c) by {
        lemma_rank_le_transitive(a, b, c);
    }
    assert forall|a: Scored| #[trigger] rank_le(a, a) by {
        text::lemma_text_le_reflexive(a.0);
    }
    assert forall|a: Scored, b: Scored| #[trigger] rank_le(a, b) || #[trigger] rank_le(b, a) by {
        lemma_rank_le_total(a, b);
    }
}

/// `s` is sorted by `rank_le`.
pub open spec fn rank_sorted(s: Seq<Scored>) -> bool {
    forall|i: int, j: int| 0 <= i < j < s.len() ==> rank_le(#[trigger] s[i], #[trigger] s[j])
}

pub proof fn lemma_rank_sorted_is_sorted_by(s: Seq<Scored>)
    ensures
        rank_sorted(s) == sorted_by(s, |a: Scored, b: Scored| rank_le(a, b)),
{
    let leq = |a: Scored, b: Scored| rank_le(a, b);
    if rank_sorted(s) {
        assert forall|i: int, j: int| 0 <= i < j < s.len() implies #[trigger] leq(s[i], s[j]) by {
            assert(rank_le(s[i], s[j]));
        }
    }
    if sorted_by(s, leq) {
        assert forall|i: int, j: int| 0 <= i < j < s.len() implies rank_le(
            #[trigger] s[i],
            #[trigger] s[j],
        ) by {
            assert(leq(s[i], s[j]));
        }
    }
}

pub proof fn lemma_filter_push<A>(s: Seq<A>, x: A, pred: spec_fn(A) -> bool)
    ensures
        s.push(x).filter(pred) == if pred(x) {
            s.filter(pred).push(x)
        } else {
            s.filter(pred)
        },
{
    reveal(Seq::filter);
    assert(s.push(x).drop_last() =~= s);
}

/// Inserting `x` after everything not above it keeps a sorted sequence sorted.
proof fn lemma_insert_sorted(s: Seq<Scored>, pos: int, x: Scored)
    requires
        0 <= pos <= s.len(),
        rank_sorted(s),
        forall|k: int| 0 <= k < pos ==> rank_le(#[trigger] s[k], x),
        pos < s.len() ==> rank_le(x, s[pos]),
    ensures
        rank_sorted(s.insert(pos, x)),
{
    let t = s.insert(pos, x);
    assert forall|i: int, j: int| 0 <= i < j < t.len() implies rank_le(#[trigger] t[i], #[trigger] t[j]) by {
        if j < pos {
            assert(t[i] == s[i] && t[j] == s[j]);
        } else if j == pos {
            assert(t[i] == s[i]);
        } else if i < pos {
            assert(t[i] == s[i] && t[j] == s[j - 1]);
            assert(rank_le(s[i], x));
            if pos < j - 1 {
                assert(rank_le(s[pos], s[j - 1]));
                lemma_rank_le_transitive(x, s[pos], s[j - 1]);
            }
            lemma_rank_le_transitive(s[i], x, s[j - 1]);
        } else if i == pos {
            assert(t[j] == s[j - 1]);
            if pos < j - 1 {
                assert(rank_le(s[pos], s[j - 1]));
                lemma_rank_le_transitive(x, s[pos], s[j - 1]);
            }
        } else {
            assert(t[i] == s[i - 1] && t[j] == s[j - 1]);
        }
    }
}

// ---------------------------------------------------------------------------
// Laws
// ---------------------------------------------------------------------------

/// The names a suggestion offers.
pub open spec fn offered(s: Suggestion) -> Seq<Seq<char>> {
    match s {
        Suggestion::ConfidentCorrect(n) => seq![n],
        Suggestion::AutoCorrect(n) => seq![n],
        Suggestion::Suggestions(v) => v,
        Suggestion::NoMatch => seq![],
    }
}

proof fn lemma_filter_member<A>(s: Seq<A>, pred: spec_fn(A) -> bool, k: int)
    requires
        0 <= k < s.filter(pred).len(),
    ensures
        pred(s.filter(pred)[k]),
        exists|i: int| 0 <= i < s.len() && s[i] == s.filter(pred)[k],
{
    broadcast use vstd::seq_lib::group_filter_ensures;

    let x = s.filter(pred)[k];
    assert(s.filter(pred).contains(x));
    s.lemma_filter_contains_rev(pred, x);
}

/// Every name offered is a candidate within `max_distance` edits that
/// differs from the command; at most `max_suggestions` names are listed;
/// a correction is the one candidate at distance 1; and nothing is offered
/// exactly when no candidate is within reach.
pub proof fn lemma_offers_are_close_candidates(
    cmd_bytes: nat,
    scored: Seq<Scored>,
    max_distance: nat,
    max_suggestions: nat,
)
    ensures
        ({
            let d = decide_suggestion(cmd_bytes, scored, max_distance, max_suggestions);
            &&& forall|k: int|
                0 <= k < offered(d).len() ==> exists|i: int|
                    0 <= i < scored.len() && scored[i].0 == #[trigger] offered(d)[k] && is_match(
                        scored[i],
                        max_distance,
                    )
            &&& d is Suggestions ==> offered(d).len() <= max_suggestions
            &&& (d is ConfidentCorrect || d is AutoCorrect) ==> exists|i: int|
                0 <= i < scored.len() && scored[i].0 == offered(d)[0] && scored[i].1 == 1
            &&& (d is NoMatch) == (forall|i: int|
                0 <= i < scored.len() ==> !is_match(#[trigger] scored[i], max_distance))
        }),
{
    broadcast use vstd::seq_lib::group_filter_ensures;

    let d = decide_suggestion(cmd_bytes, scored, max_distance, max_suggestions);
    let mp = |p: Scored| is_match(p, max_distance);
    let m = matches_of(scored, max_distance);
    let ones = nearest_of(m);
    assert forall|j: int| 0 <= j < m.len() implies exists|i: int|
        0 <= i < scored.len() && scored[i] == #[trigger] m[j] && is_match(scored[i], max_distance) by {
        lemma_filter_member(scored, mp, j);
    }
    if m.len() == 0 {
        assert forall|i: int| 0 <= i < scored.len() implies !is_match(
            #[trigger] scored[i],
            max_distance,
        ) by {
            if is_match(scored[i], max_distance) {
                scored.lemma_filter_contains(mp, i);
            }
        }
    } else {
        assert(m.contains(m[0]));
        let i0 = choose|i: int| 0 <= i < scored.len() && scored[i] == m[0] && is_match(
            scored[i],
            max_distance,
        );
        assert(!(forall|i: int| 0 <= i < scored.len() ==> !is_match(#[trigger] scored[i], max_distance)))
            by {
            assert(is_match(scored[i0], max_distance));
        }
        if ones.len() == 1 {
            lemma_filter_member(m, |p: Scored| p.1 == 1, 0);
            let j = choose|j: int| 0 <= j < m.len() && m[j] == ones[0];
            assert(offered(d)[0] == ones[0].0);
        } else {
            let r = ranking(m);
            lemma_rank_le_total_ordering();
            m.lemma_sort_by_ensures(|a: Scored, b: Scored| rank_le(a, b));
            let k = if max_suggestions < r.len() {
                max_suggestions as int
            } else {
                r.len() as int
            };
            assert forall|t: int| 0 <= t < offered(d).len() implies exists|i: int|
                0 <= i < scored.len() && scored[i].0 == #[trigger] offered(d)[t] && is_match(
                    scored[i],
                    max_distance,
                ) by {
                assert(offered(d)[t] == r[t].0);
                assert(r.to_multiset().count(r[t]) > 0);
                assert(m.to_multiset().count(r[t]) > 0);
                assert(m.contains(r[t]));
                let j = choose|j: int| 0 <= j < m.len() && m[j] == r[t];
            }
        }
    }
}

proof fn lemma_filter_to_multiset<A>(s: Seq<A>, pred: spec_fn(A) -> bool)
    ensures
        s.filter(pred).to_multiset() =~= s.to_multiset().filter(pred),
    decreases s.len(),
{
    broadcast use vstd::multiset::group_multiset_axioms;

    if s.len() == 0 {
        reveal(Seq::filter);
    } else {
        let t = s.drop_last();
        let x = s.last();
        lemma_filter_to_multiset(t, pred);
        assert(s =~= t.push(x));
        lemma_filter_push(t, x, pred);
    }
}

proof fn lemma_same_multiset_filter<A>(s1: Seq<A>, s2: Seq<A>, pred: spec_fn(A) -> bool)
    requires
        s1.to_multiset() == s2.to_multiset(),
    ensures
        s1.filter(pred).to_multiset() == s2.filter(pred).to_multiset(),
{
    lemma_filter_to_multiset(s1, pred);
    lemma_filter_to_multiset(s2, pred);
}

/// The outcome depends only on which candidates there are, not on the order
/// in which they are given.
pub proof fn lemma_order_does_not_matter(
    cmd_bytes: nat,
    scored1: Seq<Scored>,
    scored2: Seq<Scored>,
    max_distance: nat,
    max_suggestions: nat,
)
    requires
        scored1.to_multiset() == scored2.to_multiset(),
    ensures
        decide_suggestion(cmd_bytes, scored1, max_distance, max_suggestions) == decide_suggestion(
            cmd_bytes,
            scored2,
            max_distance,
            max_suggestions,
        ),
{
    broadcast use vstd::multiset::group_multiset_axioms;

    let mp = |p: Scored| is_match(p, max_distance);
    let op = |p: Scored| p.1 == 1;
    let m1 = matches_of(scored1, max_distance);
    let m2 = matches_of(scored2, max_distance);
    lemma_same_multiset_filter(scored1, scored2, mp);
    assert(m1.to_multiset() == m2.to_multiset());
    let o1 = nearest_of(m1);
    let o2 = nearest_of(m2);
    lemma_same_multiset_filter(m1, m2, op);
    vstd::seq_lib::to_multiset_len(m1);
    vstd::seq_lib::to_multiset_len(m2);
    vstd::seq_lib::to_multiset_len(o1);
    vstd::seq_lib::to_multiset_len(o2);
    assert(m1.len() == m2.len());
    assert(o1.len() == o2.len());
    if o1.len() == 1 {
        assert(o1.to_multiset().count(o1[0]) > 0);
        assert(o2.contains(o1[0]));
        assert(o1[0] == o2[0]);
    }
    lemma_rank_le_total_ordering();
    m1.lemma_sort_by_ensures(|a: Scored, b: Scored| rank_le(a, b));
    m2.lemma_sort_by_ensures(|a: Scored, b: Scored| rank_le(a, b));
    vstd::seq_lib::lemma_sorted_unique(ranking(m1), ranking(m2), |a: Scored, b: Scored| rank_le(a, b));
}

// ---------------------------------------------------------------------------
// Implementation
// ---------------------------------------------------------------------------

struct Ranked {
    name: String,
    chars: Vec<char>,
    dist: usize,
}

spec fn ranked_view(v: Seq<Ranked>) -> Seq<Scored> {
    v.map_values(|r: Ranked| (r.name@, r.dist as nat))
}

spec fn ranked_ok(v: Seq<Ranked>) -> bool {
    forall|i: int| 0 <= i < v.len() ==> (#[trigger] v[i]).chars@ == v[i].name@
}

fn rank_le_exec(a: &Ranked, b: &Ranked) -> (r: bool)
    requires
        a.chars@ == a.name@,
        b.chars@ == b.name@,
    ensures
        r == rank_le((a.name@, a.dist as nat), (b.name@, b.dist as nat)),
{
    a.dist < b.dist || (a.dist == b.dist && text::text_le_exec(&a.chars, &b.chars))
}

/// Sorts `items` by `rank_le`.
fn sort_ranked(items: Vec<Ranked>) -> (sorted: Vec<Ranked>)
    requires
        ranked_ok(items@),
    ensures
        ranked_ok(sorted@),
        ranked_view(sorted@) == ranking(ranked_view(items@)),
{
    let ghost input = ranked_view(items@);
    let mut sorted: Vec<Ranked> = Vec::new();
    let mut rest = items;
    let ghost done: Seq<Scored> = seq![];
    // Items are taken from the back of `rest`; `done` holds what has been taken.
    while rest.len() > 0
        invariant
            ranked_ok(sorted@),
            ranked_ok(rest@),
            rank_sorted(ranked_view(sorted@)),
            input == ranked_view(rest@) + done,
            ranked_view(sorted@).to_multiset() == done.to_multiset(),
        decreases rest.len(),
    {
        let ghost old_rest = rest@;
        let x = rest.pop().unwrap();
        proof {
            assert(old_rest[old_rest.len() - 1] == x);
            assert(ranked_view(old_rest) =~= ranked_view(rest@).push((x.name@, x.dist as nat)));
            assert(x.chars@ == x.name@);
        }
        let mut pos: usize = 0;
        while pos < sorted.len() && rank_le_exec(&sorted[pos], &x)
            invariant
                pos <= sorted@.len(),
                ranked_ok(sorted@),
                x.chars@ == x.name@,
                forall|k: int| 0 <= k < pos ==> rank_le(ranked_view(sorted@)[k], (x.name@, x.dist as nat)),
            decreases sorted@.len() - pos,
        {
            pos += 1;
        }
        let ghost before = ranked_view(sorted@);
        let ghost before_vec = sorted@;
        let ghost xv = (x.name@, x.dist as nat);
        proof {
            if pos < sorted@.len() {
                assert(!rank_le(before[pos as int], xv));
                lemma_rank_le_total(before[pos as int], xv);
            }
            lemma_insert_sorted(before, pos as int, xv);
        }
        sorted.insert(pos, x);
        proof {
            assert(ranked_view(sorted@) =~= before.insert(pos as int, xv));
            vstd::seq_lib::to_multiset_insert(before, pos as int, xv);
            assert((seq![xv] + done).to_multiset() =~= done.to_multiset().insert(xv)) by {
                vstd::seq_lib::lemma_multiset_commutative(seq![xv], done);
                assert(seq![xv].to_multiset() =~= vstd::multiset::Multiset::empty().insert(xv)) by {
                    assert(seq![xv] =~= Seq::<Scored>::empty().push(xv));
                }
            }
            done = seq![xv] + done;
            assert(input =~= ranked_view(rest@) + done);
            assert forall|i: int| 0 <= i < rest@.len() implies (#[trigger] rest@[i]).chars@ == rest@[i].name@ by {
                assert(rest@[i] == old_rest[i]);
            }
            assert forall|i: int| 0 <= i < sorted@.len() implies (#[trigger] sorted@[i]).chars@ == sorted@[i].name@ by {
                assert(sorted@ == before_vec.insert(pos as int, x));
                if i < pos {
                    assert(sorted@[i] == before_vec[i]);
                } else if i > pos {
                    assert(sorted@[i] == before_vec[i - 1]);
                }
            }
        }
    }
    proof {
        assert(input =~= done);
        lemma_rank_le_total_ordering();
        lemma_rank_sorted_is_sorted_by(ranked_view(sorted@));
        input.lemma_sort_by_ensures(|a: Scored, b: Scored| rank_le(a, b));
        vstd::seq_lib::lemma_sorted_unique(
            ranked_view(sorted@),
            ranking(input),
            |a: Scored, b: Scored| rank_le(a, b),
        );
    }
    sorted
}


/// Decides what to offer for a mistyped command, given the candidates that
/// passed the length filter, each with its edit distance from the command.
pub fn select_suggestion(
    cmd: &str,
    scored: &[(String, usize)],
    max_distance: usize,
    max_suggestions: usize,
) -> (r: SuggestResult)
    ensures
        r@ == decide_suggestion(
            byte_len(cmd@),
            scored_view(scored@),
            max_distance as nat,
            max_suggestions as nat,
        ),
{
    let ghost all = scored_view(scored@);
    let mut matched: Vec<Ranked> = Vec::new();
    let mut ones: usize = 0;
    let mut one_idx: usize = 0;
    for i in 0..scored.len()
        invariant
            all == scored_view(scored@),
            ranked_ok(matched@),
            ranked_view(matched@) == matches_of(all.take(i as int), max_distance as nat),
            ones == nearest_of(ranked_view(matched@)).len(),
            ones <= matched@.len(),
            matched@.len() <= i,
            ones >= 1 ==> one_idx < matched@.len() && ranked_view(matched@)[one_idx as int]
                == nearest_of(ranked_view(matched@))[0],
    {
        let ghost before = ranked_view(matched@);
        let ghost p = all[i as int];
        assert(all.take(i + 1) =~= all.take(i as int).push(p));
        proof {
            lemma_filter_push(all.take(i as int), p, |q: Scored| is_match(q, max_distance as nat));
        }
        let d = scored[i].1;
        if 0 < d && d <= max_distance {
            let name = scored[i].0.clone();
            let chars = text::chars_of(name.as_str());
            let ghost pv = (name@, d as nat);
            assert(pv == p);
            matched.push(Ranked { name, chars, dist: d });
            proof {
                assert(ranked_view(matched@) =~= before.push(pv));
                lemma_filter_push(before, pv, |q: Scored| q.1 == 1);
                assert forall|k: int| 0 <= k < matched@.len() implies (#[trigger] matched@[k]).chars@
                    == matched@[k].name@ by {
                    if k < matched@.len() - 1 {
                        assert(matched@[k] == matched@.drop_last()[k]);
                    }
                }
            }
            if d == 1 {
                if ones == 0 {
                    one_idx = matched.len() - 1;
                }
                ones += 1;
            }
        }
    }
    assert(all.take(scored.len() as int) =~= all);
    let ghost m = ranked_view(matched@);
    if matched.len() == 0 {
        return SuggestResult::NoMatch;
    }
    if ones == 1 {
        let name = matched[one_idx].name.clone();
        if cmd.len() >= 3 {
            return SuggestResult::ConfidentCorrect(name);
        } else {
            return SuggestResult::AutoCorrect(name);
        }
    }
    let sorted = sort_ranked(matched);
    let ghost r = ranking(m);
    let k = if max_suggestions < sorted.len() {
        max_suggestions
    } else {
        sorted.len()
    };
    let mut names: Vec<String> = Vec::new();
    for j in 0..k
        invariant
            k <= sorted@.len(),
            ranked_view(sorted@) == r,
            names_view(names@) == r.take(j as int).map_values(|p: Scored| p.0),
    {
        let ghost old_names = names@;
        names.push(sorted[j].name.clone());
        proof {
            assert(r[j as int].0 == sorted@[j as int].name@);
            assert(names_view(names@) =~= names_view(old_names).push(r[j as int].0));
            assert(r.take(j + 1) =~= r.take(j as int).push(r[j as int]));
            assert(names_view(names@) =~= r.take(j + 1).map_values(|p: Scored| p.0));
        }
    }
    proof {
        assert(names@.map_values(|s: String| s@) =~= names_view(names@));
    }
    SuggestResult::Suggestions(names)
}

/// Looks for `cmd` among `candidates`: keeps those whose byte length is within
/// `max_distance` of the command's, measures each one's edit distance from
/// the command, and decides by `decide_suggestion`.
pub fn suggest(cmd: &str, candidates: &[String], max_distance: usize, max_suggestions: usize) -> (r:
    SuggestResult)
    ensures
        r@ == decide_suggestion(
            byte_len(cmd@),
            score_candidates(cmd@, names_view(candidates@), max_distance as nat),
            max_distance as nat,
            max_suggestions as nat,
        ),
        forall|k: int| 0 <= k < offered(r@).len() ==> #[trigger] offered(r@)[k] != cmd@,
{
    let cmd_len = cmd.len();
    let ghost cands = names_view(candidates@);
    let ghost keep = |c: Seq<char>| abs_diff(byte_len(cmd@), byte_len(c)) <= max_distance as nat;
    let ghost score = |c: Seq<char>| (c, damerau_levenshtein_distance(cmd@, c));
    let mut scored: Vec<(String, usize)> = Vec::new();
    for i in 0..candidates.len()
        invariant
            cands == names_view(candidates@),
            cmd_len == byte_len(cmd@),
            keep == (|c: Seq<char>| abs_diff(byte_len(cmd@), byte_len(c)) <= max_distance as nat),
            score == (|c: Seq<char>| (c, damerau_levenshtein_distance(cmd@, c))),
            scored_view(scored@) == cands.take(i as int).filter(keep).map_values(score),
            forall|k: int|
                0 <= k < scored@.len() ==> ((#[trigger] scored@[k]).1 == 0) == (scored@[k].0@
                    == cmd@),
    {
        let ghost before = scored_view(scored@);
        let c = &candidates[i];
        let c_len = c.as_str().len();
        assert(cands.take(i + 1) =~= cands.take(i as int).push(c@));
        proof {
            lemma_filter_push(cands.take(i as int), c@, keep);
        }
        let diff = if cmd_len >= c_len {
            cmd_len - c_len
        } else {
            c_len - cmd_len
        };
        if diff <= max_distance {
            let d = edit_distance(cmd, c.as_str());
            let ghost old_scored = scored@;
            scored.push((c.clone(), d));
            proof {
                assert forall|k: int| 0 <= k < scored@.len() implies ((#[trigger] scored@[k]).1
                    == 0) == (scored@[k].0@ == cmd@) by {
                    if k < old_scored.len() {
                        assert(scored@[k] == old_scored[k]);
                    }
                }
                assert(scored_view(scored@) =~= before.push(score(c@)));
                assert(cands.take(i as int).filter(keep).push(c@).map_values(score) =~= cands.take(
                    i as int,
                ).filter(keep).map_values(score).push(score(c@)));
            }
        }
    }
    assert(cands.take(candidates.len() as int) =~= cands);
    let r = select_suggestion(cmd, &scored, max_distance, max_suggestions);
    proof {
        let sv = scored_view(scored@);
        lemma_offers_are_close_candidates(
            byte_len(cmd@),
            sv,
            max_distance as nat,
            max_suggestions as nat,
        );
        assert forall|k: int| 0 <= k < offered(r@).len() implies #[trigger] offered(r@)[k]
            != cmd@ by {
            let i = choose|i: int|
                0 <= i < sv.len() && sv[i].0 == offered(r@)[k] && is_match(
                    sv[i],
                    max_distance as nat,
                );
            assert(scored@[i].1 != 0);
        }
    }
    r
}

} // verus!
