//! The record formats of the input files (edges, activity, automata, timed
//! automata): one record per line, fields separated by commas, `#` lines
//! and empty lines skipped.
use std::collections::BTreeMap;
use std::collections::BTreeSet;
use vstd::prelude::*;
use crate::active::Active;
use crate::edge::{lemma_pair_keys_ordered, pair_keys_ordered, Edge};
use crate::nfa::NFA;
use crate::seqs::{lemma_filter_take_len, lemma_filter_take_prefix, lemma_filter_take_step};
use crate::text::{
    data_lines, field_or, field_req, fields, is_data_line, parse_usize, parse_usize_spec,
    split_bytes, split_lines, split_on, text_lines, views,
};
use crate::tnfa::{ClockCondition, TNFA};

verus! {

/// Every line of `ls` read by `f`, in order; `None` as soon as one is unreadable.
pub open spec fn parse_all<T>(ls: Seq<Seq<u8>>, f: spec_fn(Seq<u8>) -> Option<T>) -> Option<Seq<T>>
    decreases ls.len(),
{
    if ls.len() == 0 {
        Some(Seq::empty())
    } else {
        match (parse_all(ls.drop_last(), f), f(ls.last())) {
            (Some(p), Some(x)) => Some(p.push(x)),
            _ => None,
        }
    }
}

/// An edge line: `eid,src,dst[,first]` (label 0; `first` 0 when absent).
pub open spec fn edge_record(l: Seq<u8>) -> Option<Edge> {
    let fs = fields(l);
    match (field_req(fs, 0), field_req(fs, 1), field_req(fs, 2), field_or(fs, 3, 0)) {
        (Some(eid), Some(src), Some(dst), Some(first)) => Some(Edge { eid, src, dst, label: 0, first }),
        _ => None,
    }
}

/// An activity line: `eid,time`.
pub open spec fn active_record(l: Seq<u8>) -> Option<Active> {
    let fs = fields(l);
    match (field_req(fs, 0), field_req(fs, 1)) {
        (Some(eid), Some(time)) => Some(Active { eid, time }),
        _ => None,
    }
}

/// A transition line: `state,word,next_state[,accept]` (`accept` 0 when absent).
pub open spec fn nfa_record(l: Seq<u8>) -> Option<NFA> {
    let fs = fields(l);
    match (field_req(fs, 0), field_req(fs, 1), field_req(fs, 2), field_or(fs, 3, 0)) {
        (Some(c), Some(w), Some(n), Some(a)) => Some(NFA { current_state: c, word: w, next_state: n, accept: a }),
        _ => None,
    }
}

/// The clock condition named by a field: `false`, `x0pass`, `x1pass`, and
/// anything else means always true.
pub open spec fn clock_kind_spec(s: Seq<u8>) -> ClockCondition {
    if s == seq![102u8, 97, 108, 115, 101] {
        ClockCondition::AllFalse
    } else if s == seq![120u8, 48, 112, 97, 115, 115] {
        ClockCondition::Xpass0
    } else if s == seq![120u8, 49, 112, 97, 115, 115] {
        ClockCondition::Xpass1
    } else {
        ClockCondition::AllTrue
    }
}

/// A timed transition line:
/// `state,word,next_state[,clock_set[,condition[,bound]]]` (clock_set 0,
/// condition `true` and bound 0 when absent; accept 0).
pub open spec fn tnfa_record(l: Seq<u8>) -> Option<TNFA> {
    let fs = fields(l);
    let kind = if fs.len() > 4 { clock_kind_spec(fs[4]) } else { ClockCondition::AllTrue };
    match (field_req(fs, 0), field_req(fs, 1), field_req(fs, 2), field_or(fs, 3, 0), field_or(fs, 5, 0)) {
        (Some(c), Some(w), Some(n), Some(set), Some(bound)) => Some(TNFA {
            nfa: NFA { current_state: c, word: w, next_state: n, accept: 0 },
            clock_set: set,
            clock_cond: (kind, bound),
        }),
        _ => None,
    }
}

/// The edges of an edge file.
pub open spec fn edges_text_spec(text: Seq<u8>) -> Option<Seq<Edge>> {
    parse_all(data_lines(text), |l: Seq<u8>| edge_record(l))
}

/// The activity records of an activity file.
pub open spec fn active_records_spec(text: Seq<u8>) -> Option<Seq<Active>> {
    parse_all(data_lines(text), |l: Seq<u8>| active_record(l))
}

/// The activity of an activity file, followed by the sentinel record
/// (edge 0, one past the last time, or time 1 when there is no record).
pub open spec fn actives_text_spec(text: Seq<u8>) -> Option<Seq<Active>> {
    match active_records_spec(text) {
        Some(s) => {
            let t = if s.len() > 0 { s.last().time } else { 0 };
            if t < usize::MAX {
                Some(s.push(Active { eid: 0, time: (t + 1) as usize }))
            } else {
                None
            }
        },
        None => None,
    }
}

/// The records of `s` with their times divided by `res`.
pub open spec fn scaled_actives(s: Seq<Active>, res: usize) -> Seq<Active> {
    s.map_values(|a: Active| scale_active(a, res))
}

/// `a` with its time divided by `res`.
pub open spec fn scale_active(a: Active, res: usize) -> Active {
    Active { eid: a.eid, time: a.time / res }
}

/// `e` with its `first` time divided by `res`.
pub open spec fn scale_edge(e: Edge, res: usize) -> Edge {
    Edge { first: e.first / res, ..e }
}

/// The edges of `s` with their `first` times divided by `res`.
pub open spec fn scaled_edges(s: Seq<Edge>, res: usize) -> Seq<Edge> {
    s.map_values(|e: Edge| scale_edge(e, res))
}

/// The first record of each `(eid, time)` of `s`, in order.
pub open spec fn dedup_actives(s: Seq<Active>) -> Seq<Active>
    decreases s.len(),
{
    if s.len() == 0 {
        Seq::empty()
    } else {
        let p = dedup_actives(s.drop_last());
        if p.contains(s.last()) { p } else { p.push(s.last()) }
    }
}

/// The activity of an activity file at resolution `res` (times divided by
/// `res`), each `(eid, time)` once; no sentinel record.
pub open spec fn actives_res_spec(text: Seq<u8>, res: usize) -> Option<Seq<Active>> {
    match active_records_spec(text) {
        Some(s) => if s.len() > 0 && res == 0 {
            None
        } else {
            Some(dedup_actives(scaled_actives(s, res)))
        },
        None => None,
    }
}

/// The `(eid, first)` identity of an edge.
pub open spec fn edge_key(e: Edge) -> (usize, usize) {
    (e.eid, e.first)
}

/// The first edge of each `(eid, first)` of `s`, in order.
pub open spec fn dedup_edges(s: Seq<Edge>) -> Seq<Edge>
    decreases s.len(),
{
    if s.len() == 0 {
        Seq::empty()
    } else {
        let p = dedup_edges(s.drop_last());
        if p.map_values(|e: Edge| edge_key(e)).contains(edge_key(s.last())) { p } else { p.push(s.last()) }
    }
}

/// The edges of an edge file at resolution `res` (`first` divided by
/// `res`), each `(eid, first)` once.
pub open spec fn edges_res_spec(text: Seq<u8>, res: usize) -> Option<Seq<Edge>> {
    match edges_text_spec(text) {
        Some(s) => if s.len() > 0 && res == 0 {
            None
        } else {
            Some(dedup_edges(scaled_edges(s, res)))
        },
        None => None,
    }
}

/// The transitions of an automaton file.
pub open spec fn nfas_text_spec(text: Seq<u8>) -> Option<Seq<NFA>> {
    parse_all(data_lines(text), |l: Seq<u8>| nfa_record(l))
}

/// The transitions of a timed automaton file.
pub open spec fn tnfas_text_spec(text: Seq<u8>) -> Option<Seq<TNFA>> {
    parse_all(data_lines(text), |l: Seq<u8>| tnfa_record(l))
}

/// The next states of the transitions of `nfa` on `(state, word)`, in order.
pub open spec fn next_states(nfa: Seq<NFA>, k: (usize, usize)) -> Seq<usize> {
    nfa.filter(|n: NFA| (n.current_state, n.word) == k).map_values(|n: NFA| n.next_state)
}

/// Field `i` of `fs` read as a number (`None` when missing or malformed).
fn req_field(fs: &Vec<Vec<u8>>, i: usize) -> (r: Option<usize>)
    ensures
        r == field_req(views(fs@), i as int),
{
    if i < fs.len() {
        parse_usize(fs[i].as_slice())
    } else {
        None
    }
}

/// Field `i` of `fs` read as a number, or `dflt` when the line has no such field.
fn opt_field(fs: &Vec<Vec<u8>>, i: usize, dflt: usize) -> (r: Option<usize>)
    ensures
        r == field_or(views(fs@), i as int, dflt),
{
    if i < fs.len() {
        parse_usize(fs[i].as_slice())
    } else {
        Some(dflt)
    }
}

fn edge_line(l: &Vec<u8>) -> (r: Option<Edge>)
    ensures
        r == edge_record(l@),
{
    let fs = split_bytes(l.as_slice(), 44);
    let eid = req_field(&fs, 0);
    let src = req_field(&fs, 1);
    let dst = req_field(&fs, 2);
    let first = opt_field(&fs, 3, 0);
    match (eid, src, dst, first) {
        (Some(eid), Some(src), Some(dst), Some(first)) => Some(Edge { eid, src, dst, label: 0, first }),
        _ => None,
    }
}

fn active_line(l: &Vec<u8>) -> (r: Option<Active>)
    ensures
        r == active_record(l@),
{
    let fs = split_bytes(l.as_slice(), 44);
    let eid = req_field(&fs, 0);
    let time = req_field(&fs, 1);
    match (eid, time) {
        (Some(eid), Some(time)) => Some(Active { eid, time }),
        _ => None,
    }
}

fn nfa_line(l: &Vec<u8>) -> (r: Option<NFA>)
    ensures
        r == nfa_record(l@),
{
    let fs = split_bytes(l.as_slice(), 44);
    let c = req_field(&fs, 0);
    let w = req_field(&fs, 1);
    let n = req_field(&fs, 2);
    let a = opt_field(&fs, 3, 0);
    match (c, w, n, a) {
        (Some(c), Some(w), Some(n), Some(a)) => Some(NFA { current_state: c, word: w, next_state: n, accept: a }),
        _ => None,
    }
}

/// The clock condition that a field names.
fn clock_kind(s: &Vec<u8>) -> (r: ClockCondition)
    ensures
        r == clock_kind_spec(s@),
{
    let n = s.len();
    if n == 5 && s[0] == 102 && s[1] == 97 && s[2] == 108 && s[3] == 115 && s[4] == 101 {
        assert(s@ =~= seq![102u8, 97, 108, 115, 101]);
        ClockCondition::AllFalse
    } else if n == 6 && s[0] == 120 && s[1] == 48 && s[2] == 112 && s[3] == 97 && s[4] == 115 && s[5] == 115 {
        assert(s@ =~= seq![120u8, 48, 112, 97, 115, 115]);
        ClockCondition::Xpass0
    } else if n == 6 && s[0] == 120 && s[1] == 49 && s[2] == 112 && s[3] == 97 && s[4] == 115 && s[5] == 115 {
        assert(s@ =~= seq![120u8, 49, 112, 97, 115, 115]);
        ClockCondition::Xpass1
    } else {
        proof {
            if s@ == seq![102u8, 97, 108, 115, 101] {
                assert(s@[0] == 102 && s@[4] == 101);
            }
            if s@ == seq![120u8, 48, 112, 97, 115, 115] {
                assert(s@[0] == 120 && s@[1] == 48 && s@[5] == 115);
            }
            if s@ == seq![120u8, 49, 112, 97, 115, 115] {
                assert(s@[0] == 120 && s@[1] == 49 && s@[5] == 115);
            }
        }
        ClockCondition::AllTrue
    }
}

fn tnfa_line(l: &Vec<u8>) -> (r: Option<TNFA>)
    ensures
        r == tnfa_record(l@),
{
    let fs = split_bytes(l.as_slice(), 44);
    let c = req_field(&fs, 0);
    let w = req_field(&fs, 1);
    let n = req_field(&fs, 2);
    let set = opt_field(&fs, 3, 0);
    let kind = if fs.len() > 4 { clock_kind(&fs[4]) } else { ClockCondition::AllTrue };
    let bound = opt_field(&fs, 5, 0);
    match (c, w, n, set, bound) {
        (Some(c), Some(w), Some(n), Some(set), Some(bound)) => Some(TNFA {
            nfa: NFA { current_state: c, word: w, next_state: n, accept: 0 },
            clock_set: set,
            clock_cond: (kind, bound),
        }),
        _ => None,
    }
}

/// `parse_all` over one more line.
proof fn lemma_parse_all_step<T>(ls: Seq<Seq<u8>>, f: spec_fn(Seq<u8>) -> Option<T>, i: int)
    requires
        0 <= i < ls.len(),
    ensures
        parse_all(ls.take(i + 1), f) == match (parse_all(ls.take(i), f), f(ls[i])) {
            (Some(p), Some(x)) => Some(p.push(x)),
            _ => None::<Seq<T>>,
        },
{
    assert(ls.take(i + 1).drop_last() =~= ls.take(i));
}

/// Once a prefix fails, the whole fails.
proof fn lemma_parse_all_fails<T>(ls: Seq<Seq<u8>>, f: spec_fn(Seq<u8>) -> Option<T>, i: int)
    requires
        0 <= i <= ls.len(),
        parse_all(ls.take(i), f) is None,
    ensures
        parse_all(ls, f) is None,
    decreases ls.len() - i,
{
    if i == ls.len() {
        assert(ls.take(i) =~= ls);
    } else {
        lemma_parse_all_step(ls, f, i);
        lemma_parse_all_fails(ls, f, i + 1);
    }
}

/// A record line that `f` cannot read makes the whole file unreadable.
proof fn lemma_parse_fails_at<T>(ls: Seq<Seq<u8>>, p: spec_fn(Seq<u8>) -> bool, f: spec_fn(Seq<u8>) -> Option<T>, i: int)
    requires
        0 <= i < ls.len(),
        p(ls[i]),
        f(ls[i]) is None,
    ensures
        parse_all(ls.filter(p), f) is None,
{
    lemma_filter_take_step(ls, p, i);
    lemma_filter_take_prefix(ls, p, i + 1);
    let d = ls.take(i + 1).filter(p);
    assert(d.drop_last() =~= ls.take(i).filter(p));
    assert(d.last() == ls[i]);
    assert(parse_all(d, f) is None);
    lemma_filter_take_len(ls, p, i + 1);
    lemma_parse_all_fails(ls.filter(p), f, d.len() as int);
}

impl Edge {
    /// The edges of the text of an edge file; `None` when a record line is
    /// malformed.
    pub fn from_text(text: &[u8]) -> (r: Option<Vec<Edge>>)
        ensures
            match r {
                Some(v) => edges_text_spec(text@) == Some(v@),
                None => edges_text_spec(text@) is None,
            },
    {
        let lines = split_lines(text);
        let ghost ls = views(lines@);
        let ghost p = |l: Seq<u8>| is_data_line(l);
        let ghost f = |l: Seq<u8>| edge_record(l);
        let mut edges: Vec<Edge> = Vec::new();
        let mut i: usize = 0;
        while i < lines.len()
            invariant
                i <= lines@.len(),
                ls == views(lines@),
                ls == text_lines(text@),
                p == (|l: Seq<u8>| is_data_line(l)),
                f == (|l: Seq<u8>| edge_record(l)),
                parse_all(ls.take(i as int).filter(p), f) == Some(edges@),
            decreases lines@.len() - i,
        {
            let l = &lines[i];
            assert(l@ == ls[i as int]);
            proof {
                lemma_filter_take_step(ls, p, i as int);
            }
            if l.len() > 0 && l[0] != 35 {
                proof {
                    let d = ls.take(i as int).filter(p);
                    assert(ls.take(i + 1).filter(p) == d.push(l@));
                    assert(d.push(l@).drop_last() =~= d);
                }
                match edge_line(l) {
                    Some(e) => {
                        edges.push(e);
                    },
                    None => {
                        proof {
                            lemma_parse_fails_at(ls, p, f, i as int);
                        }
                        return None;
                    },
                }
            }
            i = i + 1;
        }
        assert(ls.take(ls.len() as int) =~= ls);
        Some(edges)
    }
}

impl NFA {
    /// The records of the text of a file; `None` when a record line is
    /// malformed.
    pub fn from_text(text: &[u8]) -> (r: Option<Vec<NFA>>)
        ensures
            match r {
                Some(v) => nfas_text_spec(text@) == Some(v@),
                None => nfas_text_spec(text@) is None,
            },
    {
        let lines = split_lines(text);
        let ghost ls = views(lines@);
        let ghost p = |l: Seq<u8>| is_data_line(l);
        let ghost f = |l: Seq<u8>| nfa_record(l);
        let mut nfas: Vec<NFA> = Vec::new();
        let mut i: usize = 0;
        while i < lines.len()
            invariant
                i <= lines@.len(),
                ls == views(lines@),
                ls == text_lines(text@),
                p == (|l: Seq<u8>| is_data_line(l)),
                f == (|l: Seq<u8>| nfa_record(l)),
                parse_all(ls.take(i as int).filter(p), f) == Some(nfas@),
            decreases lines@.len() - i,
        {
            let l = &lines[i];
            assert(l@ == ls[i as int]);
            proof {
                lemma_filter_take_step(ls, p, i as int);
            }
            if l.len() > 0 && l[0] != 35 {
                proof {
                    let d = ls.take(i as int).filter(p);
                    assert(ls.take(i + 1).filter(p) == d.push(l@));
                    assert(d.push(l@).drop_last() =~= d);
                }
                match nfa_line(l) {
                    Some(e) => {
                        nfas.push(e);
                    },
                    None => {
                        proof {
                            lemma_parse_fails_at(ls, p, f, i as int);
                        }
                        return None;
                    },
                }
            }
            i = i + 1;
        }
        assert(ls.take(ls.len() as int) =~= ls);
        Some(nfas)
    }
}

impl TNFA {
    /// The records of the text of a file; `None` when a record line is
    /// malformed.
    pub fn from_text(text: &[u8]) -> (r: Option<Vec<TNFA>>)
        ensures
            match r {
                Some(v) => tnfas_text_spec(text@) == Some(v@),
                None => tnfas_text_spec(text@) is None,
            },
    {
        let lines = split_lines(text);
        let ghost ls = views(lines@);
        let ghost p = |l: Seq<u8>| is_data_line(l);
        let ghost f = |l: Seq<u8>| tnfa_record(l);
        let mut tnfas: Vec<TNFA> = Vec::new();
        let mut i: usize = 0;
        while i < lines.len()
            invariant
                i <= lines@.len(),
                ls == views(lines@),
                ls == text_lines(text@),
                p == (|l: Seq<u8>| is_data_line(l)),
                f == (|l: Seq<u8>| tnfa_record(l)),
                parse_all(ls.take(i as int).filter(p), f) == Some(tnfas@),
            decreases lines@.len() - i,
        {
            let l = &lines[i];
            assert(l@ == ls[i as int]);
            proof {
                lemma_filter_take_step(ls, p, i as int);
            }
            if l.len() > 0 && l[0] != 35 {
                proof {
                    let d = ls.take(i as int).filter(p);
                    assert(ls.take(i + 1).filter(p) == d.push(l@));
                    assert(d.push(l@).drop_last() =~= d);
                }
                match tnfa_line(l) {
                    Some(e) => {
                        tnfas.push(e);
                    },
                    None => {
                        proof {
                            lemma_parse_fails_at(ls, p, f, i as int);
                        }
                        return None;
                    },
                }
            }
            i = i + 1;
        }
        assert(ls.take(ls.len() as int) =~= ls);
        Some(tnfas)
    }
}

impl Active {
    /// The records of the text of a file; `None` when a record line is
    /// malformed.
    fn records_from_text(text: &[u8]) -> (r: Option<Vec<Active>>)
        ensures
            match r {
                Some(v) => active_records_spec(text@) == Some(v@),
                None => active_records_spec(text@) is None,
            },
    {
        let lines = split_lines(text);
        let ghost ls = views(lines@);
        let ghost p = |l: Seq<u8>| is_data_line(l);
        let ghost f = |l: Seq<u8>| active_record(l);
        let mut actives: Vec<Active> = Vec::new();
        let mut i: usize = 0;
        while i < lines.len()
            invariant
                i <= lines@.len(),
                ls == views(lines@),
                ls == text_lines(text@),
                p == (|l: Seq<u8>| is_data_line(l)),
                f == (|l: Seq<u8>| active_record(l)),
                parse_all(ls.take(i as int).filter(p), f) == Some(actives@),
            decreases lines@.len() - i,
        {
            let l = &lines[i];
            assert(l@ == ls[i as int]);
            proof {
                lemma_filter_take_step(ls, p, i as int);
            }
            if l.len() > 0 && l[0] != 35 {
                proof {
                    let d = ls.take(i as int).filter(p);
                    assert(ls.take(i + 1).filter(p) == d.push(l@));
                    assert(d.push(l@).drop_last() =~= d);
                }
                match active_line(l) {
                    Some(e) => {
                        actives.push(e);
                    },
                    None => {
                        proof {
                            lemma_parse_fails_at(ls, p, f, i as int);
                        }
                        return None;
                    },
                }
            }
            i = i + 1;
        }
        assert(ls.take(ls.len() as int) =~= ls);
        Some(actives)
    }
}


impl Active {
    /// The activity of the text of an activity file, followed by the
    /// sentinel record `(0, last time + 1)`; `None` when a record line is
    /// malformed or the last time has no successor.
    pub fn from_text(text: &[u8]) -> (r: Option<Vec<Active>>)
        ensures
            match r {
                Some(v) => actives_text_spec(text@) == Some(v@),
                None => actives_text_spec(text@) is None,
            },
    {
        let mut active = match Active::records_from_text(text) {
            Some(v) => v,
            None => return None,
        };
        let t = if active.len() > 0 { active[active.len() - 1].time } else { 0 };
        if t == usize::MAX {
            return None;
        }
        active.push(Active { eid: 0, time: t + 1 });
        Some(active)
    }

    /// The activity of the text of an activity file at resolution `res`:
    /// times divided by `res`, each `(eid, time)` kept once (the first);
    /// `None` when a record line is malformed, or `res` is 0 and there is a
    /// record.
    pub fn from_text_res(text: &[u8], res: usize) -> (r: Option<Vec<Active>>)
        ensures
            match r {
                Some(v) => actives_res_spec(text@, res) == Some(v@),
                None => actives_res_spec(text@, res) is None,
            },
    {
        let records = match Active::records_from_text(text) {
            Some(v) => v,
            None => return None,
        };
        if records.len() > 0 && res == 0 {
            return None;
        }
        proof {
            lemma_pair_keys_ordered();
        }
        let ghost m = scaled_actives(records@, res);
        let mut set: BTreeSet<(usize, usize)> = BTreeSet::new();
        let mut active: Vec<Active> = Vec::new();
        let mut i: usize = 0;
        while i < records.len()
            invariant
                i <= records@.len(),
                records@.len() > 0 ==> res > 0,
                pair_keys_ordered(),
                m == scaled_actives(records@, res),
                active@ == dedup_actives(m.take(i as int)),
                forall|k: (usize, usize)| #[trigger] set@.contains(k) <==> active@.contains(Active { eid: k.0, time: k.1 }),
            decreases records@.len() - i,
        {
            let a = records[i];
            let key = (a.eid, a.time / res);
            let ghost before = active@;
            assert(m.take(i + 1).drop_last() =~= m.take(i as int));
            assert(m[i as int] == Active { eid: key.0, time: key.1 });
            if !set.contains(&key) {
                active.push(Active { eid: key.0, time: key.1 });
                set.insert(key);
                proof {
                    assert forall|k: (usize, usize)| #[trigger] set@.contains(k) <==> active@.contains(Active { eid: k.0, time: k.1 }) by {
                        if active@.contains(Active { eid: k.0, time: k.1 }) && k != key {
                            let j = choose|j: int| 0 <= j < active@.len() && active@[j] == Active { eid: k.0, time: k.1 };
                            assert(before[j] == active@[j]);
                        }
                        if before.contains(Active { eid: k.0, time: k.1 }) {
                            let j = choose|j: int| 0 <= j < before.len() && before[j] == Active { eid: k.0, time: k.1 };
                            assert(active@[j] == before[j]);
                        }
                        assert(active@[before.len() as int] == Active { eid: key.0, time: key.1 });
                    }
                }
            }
            i = i + 1;
        }
        assert(m.take(m.len() as int) =~= m);
        Some(active)
    }
}

impl Edge {
    /// The edges of the text of an edge file at resolution `res`: `first`
    /// divided by `res`, each `(eid, first)` kept once (the first edge);
    /// `None` when a record line is malformed, or `res` is 0 and there is an
    /// edge.
    pub fn from_text_res(text: &[u8], res: usize) -> (r: Option<Vec<Edge>>)
        ensures
            match r {
                Some(v) => edges_res_spec(text@, res) == Some(v@),
                None => edges_res_spec(text@, res) is None,
            },
    {
        let records = match Edge::from_text(text) {
            Some(v) => v,
            None => return None,
        };
        if records.len() > 0 && res == 0 {
            return None;
        }
        proof {
            lemma_pair_keys_ordered();
        }
        let ghost m = scaled_edges(records@, res);
        let mut set: BTreeSet<(usize, usize)> = BTreeSet::new();
        let mut edges: Vec<Edge> = Vec::new();
        let mut i: usize = 0;
        while i < records.len()
            invariant
                i <= records@.len(),
                records@.len() > 0 ==> res > 0,
                pair_keys_ordered(),
                m == scaled_edges(records@, res),
                edges@ == dedup_edges(m.take(i as int)),
                forall|k: (usize, usize)| #[trigger] set@.contains(k) <==> edges@.map_values(|e: Edge| edge_key(e)).contains(k),
            decreases records@.len() - i,
        {
            let r = records[i];
            let e = Edge { eid: r.eid, src: r.src, dst: r.dst, label: r.label, first: r.first / res };
            let key = (e.eid, e.first);
            let ghost before = edges@;
            assert(m.take(i + 1).drop_last() =~= m.take(i as int));
            assert(m[i as int] == e);
            if !set.contains(&key) {
                edges.push(e);
                set.insert(key);
                proof {
                    let km = edges@.map_values(|e: Edge| edge_key(e));
                    let kb = before.map_values(|e: Edge| edge_key(e));
                    assert(km =~= kb.push(key));
                    assert forall|k: (usize, usize)| #[trigger] set@.contains(k) <==> km.contains(k) by {
                        if km.contains(k) && k != key {
                            let j = choose|j: int| 0 <= j < km.len() && km[j] == k;
                            assert(kb[j] == km[j]);
                        }
                        if kb.contains(k) {
                            let j = choose|j: int| 0 <= j < kb.len() && kb[j] == k;
                            assert(km[j] == kb[j]);
                        }
                        assert(km[kb.len() as int] == key);
                    }
                }
            }
            i = i + 1;
        }
        assert(m.take(m.len() as int) =~= m);
        Some(edges)
    }
}

impl NFA {
    /// Groups the next states of the transitions by `(state, word)`, in order.
    pub fn to_dic(nfa: &Vec<NFA>) -> (r: BTreeMap<(usize, usize), Vec<usize>>)
        ensures
            forall|k: (usize, usize)| #[trigger] r@.contains_key(k) <==> next_states(nfa@, k).len() > 0,
            forall|k: (usize, usize)| #[trigger] r@.contains_key(k) ==> r@[k]@ == next_states(nfa@, k),
    {
        proof {
            lemma_pair_keys_ordered();
        }
        let mut dic: BTreeMap<(usize, usize), Vec<usize>> = BTreeMap::new();
        let mut i: usize = 0;
        while i < nfa.len()
            invariant
                i <= nfa@.len(),
                pair_keys_ordered(),
                forall|k: (usize, usize)| #[trigger] dic@.contains_key(k) <==> next_states(nfa@.take(i as int), k).len() > 0,
                forall|k: (usize, usize)| #[trigger] dic@.contains_key(k) ==> dic@[k]@ == next_states(nfa@.take(i as int), k),
            decreases nfa@.len() - i,
        {
            let n = nfa[i];
            let key = (n.current_state, n.word);
            let ghost old_d = dic@;
            let mut v = match dic.remove(&key) {
                Some(v) => v,
                None => Vec::new(),
            };
            v.push(n.next_state);
            dic.insert(key, v);
            proof {
                assert forall|k: (usize, usize)| true implies #[trigger] next_states(nfa@.take(i + 1), k) == if key == k {
                    next_states(nfa@.take(i as int), k).push(n.next_state)
                } else {
                    next_states(nfa@.take(i as int), k)
                } by {
                    lemma_filter_take_step(nfa@, |m: NFA| (m.current_state, m.word) == k, i as int);
                }
                if !old_d.contains_key(key) {
                    assert(next_states(nfa@.take(i as int), key).len() == 0);
                }
                assert(dic@[key]@ =~= next_states(nfa@.take(i + 1), key));
            }
            i = i + 1;
        }
        assert(nfa@.take(nfa@.len() as int) =~= nfa@);
        dic
    }
}

} // verus!
