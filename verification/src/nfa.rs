//! Automata over the activity words of matchings: the transition relation,
//! its application to matchings, and generators of automata and alphabets.
use std::collections::HashSet;
use vstd::arithmetic::power2::pow2;
use vstd::prelude::*;
use crate::active::Active;
use crate::join::{hash_join, join_spec};
use crate::matching::Matching;

verus! {

broadcast use vstd::std_specs::hash::group_hash_axioms;

/// A transition `current_state --word--> next_state`; `accept` marks an
/// accepting transition.
#[derive(Debug, Clone, Copy)]
pub struct NFA {
    pub current_state: usize,
    pub word: usize,
    pub next_state: usize,
    pub accept: usize,
}

/// `10` to the power `n`.
pub open spec fn pow10(n: nat) -> nat
    decreases n,
{
    if n == 0 { 1 } else { 10 * pow10((n - 1) as nat) }
}

/// The decimal number whose digits are the first `n` flags of `a`
/// (a set flag is the digit 1, a clear one the digit 0).
pub open spec fn flags_value(a: Seq<bool>, n: nat) -> nat
    decreases n,
{
    if n == 0 {
        0
    } else {
        10 * flags_value(a, (n - 1) as nat) + if a[n - 1] { 1nat } else { 0nat }
    }
}

/// A number of at most `n` binary decimal digits is below `10^n`.
pub proof fn lemma_flags_value_bound(a: Seq<bool>, n: nat)
    ensures
        flags_value(a, n) < pow10(n),
    decreases n,
{
    if n > 0 {
        lemma_flags_value_bound(a, (n - 1) as nat);
    }
}

/// The set of edge ids that `active` marks active, without the id 0.
pub open spec fn active_ids(active: Seq<Active>) -> Set<usize> {
    Set::new(|x: usize| x != 0 && exists|i: int| 0 <= i < active.len() && active[i].eid == x)
}

/// The flags "edge `eid[k]` is in `set`" for the five positions.
pub open spec fn membership(eid: [usize; 5], set: Set<usize>) -> Seq<bool> {
    Seq::new(5, |k: int| set.contains(eid[k]))
}

/// The word that a matching with edges `eid` reads when `set` is active.
pub open spec fn word_of(eid: [usize; 5], set: Set<usize>, matching_size: nat) -> nat {
    flags_value(membership(eid, set), matching_size)
}

/// The transition `c --w--> n` with accept flag `a`.
pub open spec fn transition(c: int, w: int, n: int, a: int) -> NFA {
    NFA { current_state: c as usize, word: w as usize, next_state: n as usize, accept: a as usize }
}

/// The binary-decimal number of `n` digits whose digits are the binary digits of `k`.
pub open spec fn bin_dec(k: nat, n: nat) -> nat
    decreases n,
{
    if n == 0 {
        0
    } else {
        10 * bin_dec(k / 2, (n - 1) as nat) + k % 2
    }
}

/// The largest number of `n` binary-decimal digits: `11...1`.
pub open spec fn repunit(n: nat) -> nat
    decreases n,
{
    if n == 0 { 0 } else { 10 * repunit((n - 1) as nat) + 1 }
}

/// The word of transition `i` in the alternating automaton.
pub open spec fn alt_word(i: int, matching_size: int) -> int {
    pow10((matching_size - (i % matching_size) - 1) as nat) as int
}

/// The transitions that step `i` of the alternating automaton adds.
pub open spec fn alt_block(i: int, matching_size: int, self_loop: bool) -> Seq<NFA> {
    (if self_loop { seq![transition(i + 1, 0, i + 1, 0)] } else { Seq::empty() })
        + seq![transition(i, alt_word(i, matching_size), i + 1, 0)]
}

/// The transitions of the first `n` steps of the alternating automaton.
pub open spec fn alt_body(n: nat, matching_size: int, self_loop: bool) -> Seq<NFA>
    decreases n,
{
    if n == 0 {
        Seq::empty()
    } else {
        alt_body((n - 1) as nat, matching_size, self_loop) + alt_block(n - 1, matching_size, self_loop)
    }
}

/// The alternating automaton of `nfa_size + 1` states.
pub open spec fn alt_nfa_spec(nfa_size: nat, matching_size: int, init_loop: bool, self_loop: bool) -> Seq<NFA> {
    (if init_loop { seq![transition(0, 0, 0, 0)] } else { Seq::empty() })
        + alt_body(nfa_size, matching_size, self_loop)
        + seq![transition(nfa_size as int, alt_word(nfa_size as int, matching_size), 0, 0)]
}

/// The transitions that the clock chain adds for states `2 .. k + 2`.
pub open spec fn clock_body(k: nat) -> Seq<NFA>
    decreases k,
{
    if k == 0 {
        Seq::empty()
    } else {
        let i: int = k as int + 1;
        clock_body((k - 1) as nat) + seq![transition(i, 0, i + 1, 0), transition(i + 1, 10, 0, 1)]
    }
}

/// The automaton that simulates a clock of `clock` ticks.
pub open spec fn clock_nfa_spec(clock: nat) -> Seq<NFA> {
    seq![transition(0, 0, 0, 0), transition(0, 1, 2, 0), transition(2, 10, 0, 1)] + clock_body(clock)
}

/// The matchings keyed by their `(state, word)`.
pub open spec fn state_keyed(ms: Seq<Matching>) -> Seq<((usize, usize), Matching)> {
    ms.map_values(|c: Matching| ((c.state, c.word), c))
}

/// `m` moved to state `s`.
pub open spec fn with_state(m: Matching, s: usize) -> Matching {
    Matching { state: s, ..m }
}

/// One step of the automaton `nfa_join` (keyed by `(state, word)`, valued
/// `(next_state, accept)`) on every matching: each matching is replaced by
/// one copy per transition it can take, in order.
pub open spec fn nfa_step_spec(nfa_join: Seq<((usize, usize), (usize, usize))>, ms: Seq<Matching>) -> Seq<Matching> {
    join_spec(state_keyed(ms), nfa_join).map_values(
        |t: (Matching, (usize, usize), (usize, usize))| with_state(t.0, t.2.0),
    )
}

/// Binary-decimal numbers of `n` digits are at most `11...1`.
pub proof fn lemma_bin_dec_bound(k: nat, n: nat)
    ensures
        bin_dec(k, n) <= repunit(n),
    decreases n,
{
    if n > 0 {
        lemma_bin_dec_bound(k / 2, (n - 1) as nat);
    }
}

/// Binary-decimal numbering is strictly increasing below `2^n`.
pub proof fn lemma_bin_dec_increasing(k1: nat, k2: nat, n: nat)
    requires
        k1 < k2 < pow2(n),
    ensures
        bin_dec(k1, n) < bin_dec(k2, n),
    decreases n,
{
    if n > 0 {
        vstd::arithmetic::power2::lemma_pow2_unfold(n);
        let h1 = k1 / 2;
        let h2 = k2 / 2;
        assert(h1 <= h2) by (nonlinear_arith)
            requires k1 < k2, h1 == k1 / 2, h2 == k2 / 2;
        assert(h2 < pow2((n - 1) as nat)) by (nonlinear_arith)
            requires k2 < 2 * pow2((n - 1) as nat), h2 == k2 / 2;
        if h1 < h2 {
            lemma_bin_dec_increasing(h1, h2, (n - 1) as nat);
        } else {
            assert(k1 % 2 == 0 && k2 % 2 == 1) by (nonlinear_arith)
                requires k1 < k2, k1 / 2 == k2 / 2;
        }
    } else {
        vstd::arithmetic::power2::lemma2_to64();
    }
}

/// `10^e`, for exponents that fit a `u32`.
fn pow10_u32(e: u32) -> (r: u32)
    requires
        e <= 9,
    ensures
        r == pow10(e as nat),
{
    let mut r: u32 = 1;
    let mut i: u32 = 0;
    while i < e
        invariant
            i <= e <= 9,
            r == pow10(i as nat),
        decreases e - i,
    {
        proof {
            lemma_pow10_mono(i as nat, 8);
            reveal_with_fuel(pow10, 9);
        }
        r = r * 10;
        i = i + 1;
    }
    r
}

/// `10^a <= 10^b` when `a <= b`.
pub proof fn lemma_pow10_mono(a: nat, b: nat)
    requires
        a <= b,
    ensures
        pow10(a) <= pow10(b),
    decreases b,
{
    if a < b {
        lemma_pow10_mono(a, (b - 1) as nat);
    }
}

/// Keys every matching by its `(state, word)`.
fn keyed_by_state(ms: &Vec<Matching>) -> (r: Vec<((usize, usize), Matching)>)
    ensures
        r@ == state_keyed(ms@),
{
    let mut r: Vec<((usize, usize), Matching)> = Vec::new();
    let mut i: usize = 0;
    while i < ms.len()
        invariant
            i <= ms@.len(),
            r@ == state_keyed(ms@.take(i as int)),
        decreases ms@.len() - i,
    {
        let c = ms[i];
        r.push(((c.state, c.word), c));
        assert(r@ =~= state_keyed(ms@.take(i + 1)));
        i = i + 1;
    }
    assert(ms@.take(ms@.len() as int) =~= ms@);
    r
}

/// The ids of the active edges, without 0.
fn active_set(active: &Vec<Active>) -> (r: HashSet<usize>)
    ensures
        r@ == active_ids(active@),
{
    let mut set: HashSet<usize> = HashSet::new();
    let mut i: usize = 0;
    while i < active.len()
        invariant
            i <= active@.len(),
            forall|x: usize| #[trigger] set@.contains(x) <==> exists|j: int| 0 <= j < i && active@[j].eid == x,
        decreases active@.len() - i,
    {
        set.insert(active[i].eid);
        proof {
            assert forall|x: usize| #[trigger] set@.contains(x) <==> exists|j: int| 0 <= j < i + 1 && active@[j].eid == x by {
                if x == active@[i as int].eid {
                    assert(0 <= i < i + 1 && active@[i as int].eid == x);
                }
            }
        }
        i = i + 1;
    }
    set.remove(&0);
    assert(set@ =~= active_ids(active@));
    set
}

impl NFA {
    /// The transition `current_state --word--> next_state` with flag `accept`.
    pub fn new(current_state: usize, word: usize, next_state: usize, accept: usize) -> (r: Self)
        ensures
            r == transition(current_state as int, word as int, next_state as int, accept as int),
    {
        Self { current_state, word, next_state, accept }
    }

    /// The decimal number whose digits are the first `matching_size` flags of
    /// `a`: `[true, false, true, ..]` with size 3 gives `101`.
    pub fn bool_to_usize(a: [bool; 5], matching_size: usize) -> (out: usize)
        requires
            matching_size <= 5,
        ensures
            out == flags_value(a@, matching_size as nat),
    {
        let mut out: usize = 0;
        let mut i: usize = 0;
        while i < matching_size
            invariant
                i <= matching_size <= 5,
                out == flags_value(a@, i as nat),
            decreases matching_size - i,
        {
            proof {
                lemma_flags_value_bound(a@, i as nat);
                lemma_pow10_mono(i as nat, 5);
                reveal_with_fuel(pow10, 6);
            }
            let b: usize = if a[i] { 1 } else { 0 };
            out = out * 10 + b;
            i = i + 1;
        }
        return out;
    }

    /// The alphabet letter of every matching: its id and the word it reads
    /// when the edges of `active` (other than id 0) are active.
    pub fn gen_alpha_hash(active: &Vec<Active>, matching: &Vec<Matching>, matching_size: usize) -> (alpha: Vec<(usize, usize)>)
        requires
            matching_size <= 5,
        ensures
            alpha@.len() == matching@.len(),
            forall|i: int| 0 <= i < matching@.len() ==> #[trigger] alpha@[i] == (matching@[i].mid,
                word_of(matching@[i].eid, active_ids(active@), matching_size as nat) as usize),
    {
        let active_pair = active_set(active);
        let mut alpha: Vec<(usize, usize)> = Vec::new();
        let mut i: usize = 0;
        while i < matching.len()
            invariant
                i <= matching@.len(),
                matching_size <= 5,
                active_pair@ == active_ids(active@),
                alpha@.len() == i,
                forall|j: int| 0 <= j < i ==> #[trigger] alpha@[j] == (matching@[j].mid,
                    word_of(matching@[j].eid, active_ids(active@), matching_size as nat) as usize),
            decreases matching@.len() - i,
        {
            let eid = matching[i].eid;
            let flags = [
                active_pair.contains(&eid[0]),
                active_pair.contains(&eid[1]),
                active_pair.contains(&eid[2]),
                active_pair.contains(&eid[3]),
                active_pair.contains(&eid[4]),
            ];
            assert(flags@ =~= membership(eid, active_ids(active@)));
            let w = NFA::bool_to_usize(flags, matching_size);
            alpha.push((matching[i].mid, w));
            i = i + 1;
        }
        return alpha;
    }

    /// All binary-decimal numbers of `number_of_digit` digits (digits 0 and
    /// 1 only), in increasing order: entry `k` has the binary digits of `k`.
    pub fn gen_binary_number(number_of_digit: usize) -> (out: Vec<usize>)
        requires
            1 <= number_of_digit,
            repunit(number_of_digit as nat) <= usize::MAX,
        ensures
            out@.len() == pow2(number_of_digit as nat),
            forall|k: int| 0 <= k < out@.len() ==> #[trigger] out@[k] == bin_dec(k as nat, number_of_digit as nat),
            forall|i: int, j: int| 0 <= i < j < out@.len() ==> out@[i] < out@[j],
        decreases number_of_digit,
    {
        if number_of_digit == 1 {
            proof {
                vstd::arithmetic::power2::lemma2_to64();
                reveal_with_fuel(bin_dec, 2);
            }
            return vec![0, 1];
        }
        let n = number_of_digit;
        let mut out: Vec<usize> = vec![];
        let dig = NFA::gen_binary_number(n - 1);
        proof {
            vstd::arithmetic::power2::lemma_pow2_unfold(n as nat);
        }
        let mut j: usize = 0;
        while j < dig.len()
            invariant
                2 <= n,
                repunit(n as nat) <= usize::MAX,
                dig@.len() == pow2((n - 1) as nat),
                forall|k: int| 0 <= k < dig@.len() ==> #[trigger] dig@[k] == bin_dec(k as nat, (n - 1) as nat),
                j <= dig@.len(),
                out@.len() == 2 * j,
                forall|k: int| 0 <= k < out@.len() ==> #[trigger] out@[k] == bin_dec(k as nat, n as nat),
            decreases dig@.len() - j,
        {
            let d = dig[j];
            proof {
                lemma_bin_dec_bound(j as nat, (n - 1) as nat);
                assert(bin_dec((2 * j) as nat, n as nat) == 10 * d);
                assert(bin_dec((2 * j + 1) as nat, n as nat) == 10 * d + 1);
            }
            let dd = d * 10 + 0;
            out.push(dd);
            let dd = d * 10 + 1;
            out.push(dd);
            j = j + 1;
        }
        proof {
            assert forall|i: int, k: int| 0 <= i < k < out@.len() implies out@[i] < out@[k] by {
                lemma_bin_dec_increasing(i as nat, k as nat, n as nat);
            }
        }
        return out;
    }

    /// One step of the automaton on every matching: each matching is paired,
    /// in order, with every transition `((state, word), (next_state, accept))`
    /// of `nfa_join` keyed by its own `(state, word)`, and moves to that
    /// transition's next state. Matchings without a transition drop out.
    pub fn apply_nfa(nfa_join: &Vec<((usize, usize), (usize, usize))>, current_matching: &Vec<Matching>) -> (res: Vec<Matching>)
        ensures
            res@ == nfa_step_spec(nfa_join@, current_matching@),
    {
        let first = keyed_by_state(current_matching);
        proof {
            broadcast use vstd::laws_eq::group_laws_eq;
        }
        let joined = hash_join(first.as_slice(), nfa_join.as_slice());
        let ghost f = |t: (Matching, (usize, usize), (usize, usize))| with_state(t.0, t.2.0);
        let mut res: Vec<Matching> = Vec::new();
        let mut i: usize = 0;
        while i < joined.len()
            invariant
                i <= joined@.len(),
                f == (|t: (Matching, (usize, usize), (usize, usize))| with_state(t.0, t.2.0)),
                res@ == joined@.take(i as int).map_values(f),
            decreases joined@.len() - i,
        {
            let (m, _, (next_state, _)) = joined[i];
            res.push(Matching {
                mid: m.mid,
                eid: m.eid,
                first: m.first,
                last: m.last,
                match_size: m.match_size,
                state: next_state,
                word: m.word,
                clocks: m.clocks,
            });
            assert(res@ =~= joined@.take(i + 1).map_values(f));
            i = i + 1;
        }
        assert(joined@.take(joined@.len() as int) =~= joined@);
        return res;
    }

    /// The alternating automaton over `nfa_size + 1` states: state `i` steps
    /// to `i + 1` on the word with a single 1 at position `i % matching_size`,
    /// the last state steps back to 0; optionally state 0 and the states
    /// `1 ..= nfa_size` loop on the empty word.
    pub fn alt_nfa_gen(nfa_size: usize, matching_size: usize, init_loop: bool, self_loop: bool) -> (nfas: Vec<NFA>)
        requires
            1 <= matching_size <= 10,
        ensures
            nfas@ == alt_nfa_spec(nfa_size as nat, matching_size as int, init_loop, self_loop),
    {
        let mut nfas: Vec<NFA> = vec![];
        let ghost head: Seq<NFA> = if init_loop { seq![transition(0, 0, 0, 0)] } else { Seq::empty() };
        if init_loop {
            let nfa = NFA { current_state: 0, word: 0, next_state: 0, accept: 0 };
            nfas.push(nfa);
        }
        assert(nfas@ =~= head + alt_body(0, matching_size as int, self_loop));
        let mut i: usize = 0;
        while i < nfa_size
            invariant
                i <= nfa_size,
                1 <= matching_size <= 10,
                head == (if init_loop { seq![transition(0, 0, 0, 0)] } else { Seq::<NFA>::empty() }),
                nfas@ == head + alt_body(i as nat, matching_size as int, self_loop),
            decreases nfa_size - i,
        {
            let ghost before = nfas@;
            if self_loop {
                let nfa = NFA { current_state: i + 1, word: 0, next_state: i + 1, accept: 0 };
                nfas.push(nfa);
            }
            let e = matching_size - (i % matching_size) - 1;
            let w = pow10_u32(e as u32);
            let nfa = NFA { current_state: i, word: w as usize, next_state: i + 1, accept: 0 };
            nfas.push(nfa);
            proof {
                lemma_pow10_mono(e as nat, 9);
                reveal_with_fuel(pow10, 10);
                assert(nfas@ =~= before + alt_block(i as int, matching_size as int, self_loop));
                assert(alt_body((i + 1) as nat, matching_size as int, self_loop)
                    == alt_body(i as nat, matching_size as int, self_loop) + alt_block(i as int, matching_size as int, self_loop));
            }
            i = i + 1;
        }
        let e = matching_size - (nfa_size % matching_size) - 1;
        let w = pow10_u32(e as u32);
        let nfa = NFA { current_state: nfa_size, word: w as usize, next_state: 0, accept: 0 };
        proof {
            lemma_pow10_mono(e as nat, 9);
            reveal_with_fuel(pow10, 10);
        }
        nfas.push(nfa);
        assert(nfas@ =~= alt_nfa_spec(nfa_size as nat, matching_size as int, init_loop, self_loop));
        return nfas;
    }

    /// The automaton that simulates a clock of `clock` ticks: from state 0
    /// the first edge active leads to state 2, and each of the states
    /// `2 ..= clock + 2` accepts on the second edge back to 0 or ticks on.
    pub fn nfa_clock_gen(clock: usize) -> (nfas: Vec<NFA>)
        requires
            clock <= usize::MAX - 2,
        ensures
            nfas@ == clock_nfa_spec(clock as nat),
    {
        let mut nfas: Vec<NFA> = vec![];
        let nfa = NFA { current_state: 0, word: 0, next_state: 0, accept: 0 };
        nfas.push(nfa);
        let nfa = NFA { current_state: 0, word: 1, next_state: 2, accept: 0 };
        nfas.push(nfa);
        let nfa = NFA { current_state: 2, word: 10, next_state: 0, accept: 1 };
        nfas.push(nfa);
        assert(nfas@ =~= seq![transition(0, 0, 0, 0), transition(0, 1, 2, 0), transition(2, 10, 0, 1)] + clock_body(0));
        let mut i: usize = 2;
        while i < clock + 2
            invariant
                2 <= i <= clock + 2,
                clock <= usize::MAX - 2,
                nfas@ == seq![transition(0, 0, 0, 0), transition(0, 1, 2, 0), transition(2, 10, 0, 1)] + clock_body((i - 2) as nat),
            decreases clock + 2 - i,
        {
            let nfa = NFA { current_state: i, word: 0, next_state: i + 1, accept: 0 };
            nfas.push(nfa);
            let nfa = NFA { current_state: i + 1, word: 10, next_state: 0, accept: 1 };
            nfas.push(nfa);
            assert(nfas@ =~= seq![transition(0, 0, 0, 0), transition(0, 1, 2, 0), transition(2, 10, 0, 1)] + clock_body((i - 1) as nat));
            i = i + 1;
        }
        nfas
    }
}

} // verus!
