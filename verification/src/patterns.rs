//! Dispatch from a pattern name to the matching generator for it.
use vstd::prelude::*;
use crate::cycles::{rectangle_quads, rectangles_spec, triangle_triples, triangles_spec};
use crate::edge::Edge;
use crate::matching::{
    cycle_two_spec, in_star_three_spec, in_star_two_spec, out_star_three_spec, out_star_two_spec,
    path_four_spec, path_three_spec, path_two_spec, Matching,
};

verus! {

/// The matchings that the pattern named `p` has over `edges`; an unknown
/// name means `cycle_two`.
pub open spec fn match_gen_spec(edges: Seq<Edge>, p: Seq<char>) -> Seq<Matching> {
    if p == "instar_2"@ {
        in_star_two_spec(edges)
    } else if p == "outstar_2"@ {
        out_star_two_spec(edges)
    } else if p == "instar_3"@ {
        in_star_three_spec(edges)
    } else if p == "outstar_3"@ {
        out_star_three_spec(edges)
    } else if p == "triangles_WOJ"@ {
        triangles_spec(edges)
    } else if p == "rectangle_woj"@ {
        rectangles_spec(edges)
    } else if p == "path4"@ {
        path_four_spec(edges)
    } else if p == "path3"@ {
        path_three_spec(edges)
    } else if p == "path2"@ {
        path_two_spec(edges)
    } else {
        cycle_two_spec(edges)
    }
}

/// The pattern's matchings can be numbered in a `usize`.
pub open spec fn match_gen_fits(edges: Seq<Edge>, p: Seq<char>) -> bool {
    &&& p == "triangles_WOJ"@ ==> triangle_triples(edges).len() < usize::MAX
    &&& p == "rectangle_woj"@ ==> rectangle_quads(edges).len() < usize::MAX
}

/// Whether `p` is the name `name`.
fn is_pattern(p: &String, name: &str) -> (r: bool)
    ensures
        r == (p@ == name@),
{
    let n = name.to_owned();
    p.eq(&n)
}

impl Matching {
    /// The matchings of the pattern named `pattern_type` (`instar_2`,
    /// `outstar_2`, `instar_3`, `outstar_3`, `triangles_WOJ`,
    /// `rectangle_woj`, `path4`, `path3`, `path2`; anything else is
    /// `cycle_two`).
    pub fn MatchGen(edges: Vec<Edge>, pattern_type: &String) -> (matching: Vec<Matching>)
        requires
            match_gen_fits(edges@, pattern_type@),
        ensures
            matching@ == match_gen_spec(edges@, pattern_type@),
    {
        let matching = if is_pattern(pattern_type, "instar_2") {
            Matching::in_star_two(edges.clone())
        } else if is_pattern(pattern_type, "outstar_2") {
            Matching::out_star_two(edges.clone())
        } else if is_pattern(pattern_type, "instar_3") {
            Matching::in_star_three(edges.clone())
        } else if is_pattern(pattern_type, "outstar_3") {
            Matching::out_star_three(edges.clone())
        } else if is_pattern(pattern_type, "triangles_WOJ") {
            Matching::triangles_woj(edges.clone())
        } else if is_pattern(pattern_type, "rectangle_woj") {
            Matching::rectangle_woj(edges.clone())
        } else if is_pattern(pattern_type, "path4") {
            Matching::path_four(edges.clone())
        } else if is_pattern(pattern_type, "path3") {
            Matching::path_three(edges.clone())
        } else if is_pattern(pattern_type, "path2") {
            Matching::path_two(edges.clone())
        } else {
            Matching::cycle_two(edges.clone())
        };
        matching
    }
}

} // verus!
