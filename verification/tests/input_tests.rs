use tbgp::active::Active;
use tbgp::edge::Edge;
use tbgp::nfa::NFA;
use tbgp::text::{parse_usize, split_bytes, split_lines};
use tbgp::tnfa::{ClockCondition, TNFA};

fn e(x: &Edge) -> (usize, usize, usize, usize, usize) {
    (x.eid, x.src, x.dst, x.label, x.first)
}

fn a(x: &Active) -> (usize, usize) {
    (x.eid, x.time)
}

#[test]
fn lines_are_split_like_a_line_reader() {
    let v = |t: &[u8]| split_lines(t).into_iter().map(|l| String::from_utf8(l).unwrap()).collect::<Vec<_>>();
    assert_eq!(v(b"a\nb\r\n\nc"), vec!["a", "b", "", "c"]);
    assert_eq!(v(b"a\n"), vec!["a"]);
    assert_eq!(v(b"a\r"), vec!["a\r"]);
    assert!(v(b"").is_empty());
    assert_eq!(v(b"\n"), vec![""]);
}

#[test]
fn fields_are_split_at_commas() {
    let f = split_bytes(b"1,,2", 44);
    assert_eq!(f, vec![b"1".to_vec(), b"".to_vec(), b"2".to_vec()]);
    assert_eq!(split_bytes(b"", 44), vec![Vec::<u8>::new()]);
}

#[test]
fn numbers_are_read_like_usize_from_str() {
    assert_eq!(parse_usize(b"0"), Some(0));
    assert_eq!(parse_usize(b"+42"), Some(42));
    assert_eq!(parse_usize(b"007"), Some(7));
    assert_eq!(parse_usize(b""), None);
    assert_eq!(parse_usize(b"+"), None);
    assert_eq!(parse_usize(b"-1"), None);
    assert_eq!(parse_usize(b" 1"), None);
    assert_eq!(parse_usize(b"1x"), None);
    let max = usize::MAX.to_string();
    assert_eq!(parse_usize(max.as_bytes()), Some(usize::MAX));
    let over = format!("{}0", usize::MAX);
    assert_eq!(parse_usize(over.as_bytes()), None);
    for s in ["12", "+3", "", "x", "99999999999999999999999"] {
        assert_eq!(parse_usize(s.as_bytes()), s.parse::<usize>().ok());
    }
}

#[test]
fn edge_file_records() {
    let r = Edge::from_text(b"# eid,src,dst,first\n1,2,3,4\n\n5,6,7\r\n").unwrap();
    assert_eq!(r.iter().map(e).collect::<Vec<_>>(), vec![(1, 2, 3, 0, 4), (5, 6, 7, 0, 0)]);
    assert!(Edge::from_text(b"").unwrap().is_empty());
}

#[test]
fn malformed_edge_files_are_refused() {
    assert!(Edge::from_text(b"1,2\n").is_none());
    assert!(Edge::from_text(b"1,2,3,\n").is_none());
    assert!(Edge::from_text(b"1,a,3\n").is_none());
    assert!(Edge::from_text(b"1,2,3\n4, 5,6\n").is_none());
}

#[test]
fn edge_file_at_a_resolution() {
    let r = Edge::from_text_res(b"1,1,2,10\n1,1,2,12\n2,2,3,25\n1,1,2,21\n", 10).unwrap();
    assert_eq!(r.iter().map(e).collect::<Vec<_>>(), vec![(1, 1, 2, 0, 1), (2, 2, 3, 0, 2), (1, 1, 2, 0, 2)]);
    assert!(Edge::from_text_res(b"1,1,2,10\n", 0).is_none());
    assert!(Edge::from_text_res(b"# nothing\n", 0).unwrap().is_empty());
    assert!(Edge::from_text_res(b"1,1\n", 3).is_none());
}

#[test]
fn activity_file_gets_a_sentinel_record() {
    let r = Active::from_text(b"3,1\n4,1\n3,5\n").unwrap();
    assert_eq!(r.iter().map(a).collect::<Vec<_>>(), vec![(3, 1), (4, 1), (3, 5), (0, 6)]);
    let empty = Active::from_text(b"#x\n").unwrap();
    assert_eq!(empty.iter().map(a).collect::<Vec<_>>(), vec![(0, 1)]);
    assert!(Active::from_text(b"3\n").is_none());
    let last = format!("1,{}\n", usize::MAX);
    assert!(Active::from_text(last.as_bytes()).is_none());
}

#[test]
fn activity_file_at_a_resolution() {
    let r = Active::from_text_res(b"3,10\n3,11\n4,11\n3,20\n", 10).unwrap();
    assert_eq!(r.iter().map(a).collect::<Vec<_>>(), vec![(3, 1), (4, 1), (3, 2)]);
    assert!(Active::from_text_res(b"3,10\n", 0).is_none());
    assert!(Active::from_text_res(b"", 0).unwrap().is_empty());
}

#[test]
fn automaton_files() {
    let r = NFA::from_text(b"0,1,1\n1,10,0,1\n").unwrap();
    let v: Vec<_> = r.iter().map(|n| (n.current_state, n.word, n.next_state, n.accept)).collect();
    assert_eq!(v, vec![(0, 1, 1, 0), (1, 10, 0, 1)]);
    assert!(NFA::from_text(b"0,1\n").is_none());
    let dic = NFA::to_dic(&NFA::from_text(b"0,1,1\n0,1,2\n1,0,1\n").unwrap());
    assert_eq!(dic.len(), 2);
    assert_eq!(dic[&(0, 1)], vec![1, 2]);
    assert_eq!(dic[&(1, 0)], vec![1]);
}

#[test]
fn timed_automaton_files() {
    let r = TNFA::from_text(b"0,1,1\n1,1,2,1,x0pass,5\n2,0,0,0,false\n0,0,0,2,x1pass\n0,0,1,0,other,3\n").unwrap();
    let v: Vec<_> = r.iter().map(|t| (t.nfa.current_state, t.nfa.word, t.nfa.next_state, t.clock_set, t.clock_cond.0, t.clock_cond.1)).collect();
    assert_eq!(
        v,
        vec![
            (0, 1, 1, 0, ClockCondition::AllTrue, 0),
            (1, 1, 2, 1, ClockCondition::Xpass0, 5),
            (2, 0, 0, 0, ClockCondition::AllFalse, 0),
            (0, 0, 0, 2, ClockCondition::Xpass1, 0),
            (0, 0, 1, 0, ClockCondition::AllTrue, 3),
        ]
    );
    assert!(TNFA::from_text(b"0,1,1,x\n").is_none());
    assert!(TNFA::from_text(b"0,1,1,0,true,\n").is_none());
}
