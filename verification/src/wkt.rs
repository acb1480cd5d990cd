use vstd::prelude::*;

use crate::errors::GraphError;

verus! {

/// One geometry point of a road link: easting, northing and height, each kept
/// as the exact numeric text of the source document. A 2D point carries the
/// sentinel height `"N/A"`.
#[derive(Debug)]
pub struct Coordinate {
    pub e: String,
    pub n: String,
    pub h: String,
}

/// The mathematical image of a `Coordinate`: its three components as
/// character sequences.
#[verifier::ext_equal]
pub ghost struct CoordinateModel {
    pub e: Seq<char>,
    pub n: Seq<char>,
    pub h: Seq<char>,
}

impl View for Coordinate {
    type V = CoordinateModel;

    open spec fn view(&self) -> CoordinateModel {
        CoordinateModel { e: self.e@, n: self.n@, h: self.h@ }
    }
}

impl Coordinate {
    /// A coordinate from its three components.
    pub fn new(e: String, n: String, h: String) -> (r: Coordinate)
        ensures
            r@ == (CoordinateModel { e: e@, n: n@, h: h@ }),
    {
        Coordinate { e, n, h }
    }
}

/// The height text of a point whose geometry gives only two components.
pub open spec fn sentinel_height() -> Seq<char> {
    "N/A"@
}

/// True when `pre` is an initial segment of `s`.
pub open spec fn is_prefix_of(pre: Seq<char>, s: Seq<char>) -> bool {
    pre.len() <= s.len() && s.subrange(0, pre.len() as int) == pre
}

/// True when `sep` occurs in `s` starting at position `i`.
pub open spec fn match_at(s: Seq<char>, sep: Seq<char>, i: int) -> bool {
    0 <= i && i + sep.len() <= s.len() && s.subrange(i, i + sep.len()) == sep
}

/// The least position at which `sep` occurs in `s`, if any.
pub open spec fn first_occurrence(s: Seq<char>, sep: Seq<char>) -> Option<int>
    recommends
        sep.len() >= 1,
    decreases s.len(),
{
    if s.len() < sep.len() || s.len() == 0 {
        None
    } else if s.subrange(0, sep.len() as int) == sep {
        Some(0)
    } else {
        match first_occurrence(s.skip(1), sep) {
            None => None,
            Some(i) => Some(i + 1),
        }
    }
}

/// `first_occurrence` returns the least matching position, and `None`
/// exactly when no position matches.
pub proof fn lemma_first_occurrence(s: Seq<char>, sep: Seq<char>)
    requires
        sep.len() >= 1,
    ensures
        match first_occurrence(s, sep) {
            Some(i) => match_at(s, sep, i) && (forall|j: int| 0 <= j < i ==> !match_at(s, sep, j)),
            None => forall|j: int| !match_at(s, sep, j),
        },
    decreases s.len(),
{
    if s.len() < sep.len() || s.len() == 0 {
        assert forall|j: int| !match_at(s, sep, j) by {
            if 0 <= j && j + sep.len() <= s.len() {
                assert(s.len() >= sep.len());
            }
        }
    } else if s.subrange(0, sep.len() as int) == sep {
        assert(match_at(s, sep, 0));
    } else {
        lemma_first_occurrence(s.skip(1), sep);
        assert forall|j: int| 1 <= j implies match_at(s, sep, j) == match_at(
            s.skip(1),
            sep,
            j - 1,
        ) by {
            if j + sep.len() <= s.len() {
                assert(s.skip(1).subrange(j - 1, j - 1 + sep.len() as int) =~= s.subrange(
                    j,
                    j + sep.len() as int,
                ));
            }
        }
        assert(!match_at(s, sep, 0));
    }
}

/// The pieces of `s` between the occurrences of the separator `sep`,
/// in order; always at least one piece.
pub open spec fn split_on(s: Seq<char>, sep: Seq<char>) -> Seq<Seq<char>>
    recommends
        sep.len() >= 1,
    decreases s.len(),
{
    match first_occurrence(s, sep) {
        None => seq![s],
        Some(i) => if 0 <= i && 1 <= sep.len() && i + sep.len() <= s.len() {
            seq![s.subrange(0, i)] + split_on(s.skip(i + sep.len() as int), sep)
        } else {
            seq![s]
        },
    }
}

/// The coordinate described by one token of a linestring body, if the token
/// splits on the space separator into 2 or 3 components.
pub open spec fn coordinate_of_token(t: Seq<char>) -> Option<CoordinateModel> {
    let comps = split_on(t, " "@);
    if comps.len() == 2 {
        Some(CoordinateModel { e: comps[0], n: comps[1], h: sentinel_height() })
    } else if comps.len() == 3 {
        Some(CoordinateModel { e: comps[0], n: comps[1], h: comps[2] })
    } else {
        None
    }
}

/// The prefix of a 3D linestring.
pub open spec fn prefix_3d() -> Seq<char> {
    "LINESTRING Z ("@
}

/// The prefix of a 2D linestring.
pub open spec fn prefix_2d() -> Seq<char> {
    "LINESTRING ("@
}

/// The length of the format prefix carried by `s`, if `s` carries one.
pub open spec fn wkt_prefix_len(s: Seq<char>) -> Option<int> {
    if is_prefix_of(prefix_3d(), s) {
        Some(prefix_3d().len() as int)
    } else if is_prefix_of(prefix_2d(), s) {
        Some(prefix_2d().len() as int)
    } else {
        None
    }
}

/// What parsing a linestring yields: strip the format prefix and the trailing
/// closing character, split the body on the comma-and-space separator, and
/// read each token as one coordinate.
pub open spec fn parse_linestring(s: Seq<char>) -> Result<Seq<CoordinateModel>, GraphError> {
    match wkt_prefix_len(s) {
        None => Err(GraphError::MissingPrefix),
        Some(p) => if s.len() <= p {
            Err(GraphError::MissingPrefix)
        } else {
            let tokens = split_on(s.subrange(p, s.len() - 1), ", "@);
            if forall|k: int| 0 <= k < tokens.len() ==> coordinate_of_token(#[trigger] tokens[k]) is Some {
                Ok(Seq::new(tokens.len(), |k: int| coordinate_of_token(tokens[k]).unwrap()))
            } else {
                Err(GraphError::MalformedToken)
            }
        },
    }
}

/// A successful parse always yields at least one coordinate: splitting
/// produces at least one token, and every token maps to a point.
pub proof fn lemma_parse_nonempty(s: Seq<char>)
    ensures
        parse_linestring(s) matches Ok(ms) ==> ms.len() >= 1,
{
}

/// Heights come from the tokens alone: a token of two components yields the
/// sentinel height, one of three components yields its third component.
pub proof fn lemma_parse_heights(s: Seq<char>)
    ensures
        parse_linestring(s) matches Ok(ms) ==> {
            let p = wkt_prefix_len(s).unwrap();
            let tokens = split_on(s.subrange(p, s.len() - 1), ", "@);
            &&& ms.len() == tokens.len()
            &&& forall|k: int|
                0 <= k < tokens.len() ==> {
                    let comps = split_on(#[trigger] tokens[k], " "@);
                    &&& (comps.len() == 2 ==> ms[k].h == sentinel_height())
                    &&& (comps.len() == 3 ==> ms[k].h == comps[2])
                    &&& ms[k].e == comps[0]
                    &&& ms[k].n == comps[1]
                }
        },
{
}

/// True view equality of two string slices.
fn str_eq(a: &str, b: &str) -> (r: bool)
    ensures
        r == (a@ == b@),
{
    let x = String::from_str(a);
    let y = String::from_str(b);
    x == y
}

/// Whether `sep` occurs in `s` at character position `i`.
fn match_at_exec(s: &str, sep: &str, i: usize, n: usize, m: usize) -> (r: bool)
    requires
        n == s@.len(),
        m == sep@.len(),
        i + m <= n,
    ensures
        r == match_at(s@, sep@, i as int),
{
    let mut k: usize = 0;
    while k < m
        invariant
            n == s@.len(),
            m == sep@.len(),
            i + m <= n,
            k <= m,
            forall|t: int| 0 <= t < k ==> s@[i + t] == sep@[t],
        decreases m - k,
    {
        if s.get_char(i + k) != sep.get_char(k) {
            proof {
                assert(s@.subrange(i as int, i + m as int)[k as int] != sep@[k as int]);
            }
            return false;
        }
        k += 1;
    }
    proof {
        assert(s@.subrange(i as int, i + m as int) =~= sep@);
    }
    true
}

/// The least character position at which `sep` occurs in `s`, if any.
fn find_first(s: &str, sep: &str) -> (r: Option<usize>)
    requires
        sep@.len() >= 1,
    ensures
        match r {
            Some(i) => first_occurrence(s@, sep@) == Some(i as int),
            None => first_occurrence(s@, sep@) is None,
        },
{
    let n = s.unicode_len();
    let m = sep.unicode_len();
    proof {
        lemma_first_occurrence(s@, sep@);
    }
    if n < m {
        return None;
    }
    let mut i: usize = 0;
    while i <= n - m
        invariant
            n == s@.len(),
            m == sep@.len(),
            1 <= m <= n,
            i <= n - m + 1,
            forall|j: int| 0 <= j < i ==> !match_at(s@, sep@, j),
        decreases n - m + 1 - i,
    {
        if match_at_exec(s, sep, i, n, m) {
            proof {
                lemma_first_occurrence(s@, sep@);
            }
            return Some(i);
        }
        i += 1;
    }
    proof {
        lemma_first_occurrence(s@, sep@);
        assert forall|j: int| !match_at(s@, sep@, j) by {
            if 0 <= j && j + m <= n {
                assert(j < i);
            }
        }
    }
    None
}

/// The pieces of `s` between occurrences of `sep`, as owned strings.
fn split_str(s: &str, sep: &str) -> (r: Vec<String>)
    requires
        sep@.len() >= 1,
    ensures
        r@.map_values(|x: String| x@) == split_on(s@, sep@),
    decreases s@.len(),
{
    let n = s.unicode_len();
    let m = sep.unicode_len();
    match find_first(s, sep) {
        None => {
            let mut v: Vec<String> = Vec::new();
            v.push(String::from_str(s));
            proof {
                assert(v@.map_values(|x: String| x@) =~= seq![s@]);
            }
            v
        },
        Some(i) => {
            proof {
                lemma_first_occurrence(s@, sep@);
            }
            let head = s.substring_char(0, i);
            let tail = s.substring_char(i + m, n);
            proof {
                assert(tail@ =~= s@.skip(i + m as int));
            }
            let mut rest = split_str(tail, sep);
            rest.insert(0, String::from_str(head));
            proof {
                assert(rest@.map_values(|x: String| x@) =~= seq![s@.subrange(0, i as int)]
                    + split_on(s@.skip(i + m as int), sep@));
            }
            rest
        },
    }
}

/// Parse a linestring into its ordered coordinates.
///
/// Succeeds exactly when the text carries a recognised format prefix, room
/// for the trailing closing character, and tokens of 2 or 3 components each.
pub fn create_coordinates(s: &str) -> (r: Result<Vec<Coordinate>, GraphError>)
    ensures
        match r {
            Ok(cs) => parse_linestring(s@) == Ok::<_, GraphError>(
                cs@.map_values(|c: Coordinate| c@),
            ),
            Err(e) => parse_linestring(s@) == Err::<Seq<CoordinateModel>, _>(e),
        },
{
    let n = s.unicode_len();
    let p: usize;
    if n >= 14 && str_eq(s.substring_char(0, 14), "LINESTRING Z (") {
        p = 14;
        proof {
            reveal_strlit("LINESTRING Z (");
            assert(is_prefix_of(prefix_3d(), s@));
        }
    } else if n >= 12 && str_eq(s.substring_char(0, 12), "LINESTRING (") {
        p = 12;
        proof {
            reveal_strlit("LINESTRING Z (");
            reveal_strlit("LINESTRING (");
            assert(!is_prefix_of(prefix_3d(), s@));
            assert(is_prefix_of(prefix_2d(), s@));
        }
    } else {
        proof {
            reveal_strlit("LINESTRING Z (");
            reveal_strlit("LINESTRING (");
            assert(wkt_prefix_len(s@) is None);
        }
        return Err(GraphError::MissingPrefix);
    }
    proof {
        reveal_strlit("LINESTRING Z (");
        reveal_strlit("LINESTRING (");
        assert(wkt_prefix_len(s@) == Some(p as int));
    }
    if n <= p {
        return Err(GraphError::MissingPrefix);
    }
    let body = s.substring_char(p, n - 1);
    proof {
        reveal_strlit(", ");
    }
    let tokens = split_str(body, ", ");
    let ghost toks = split_on(s@.subrange(p as int, s@.len() - 1), ", "@);
    proof {
        assert(tokens@.map_values(|x: String| x@) == toks);
    }
    let mut coords: Vec<Coordinate> = Vec::new();
    let mut idx: usize = 0;
    while idx < tokens.len()
        invariant
            wkt_prefix_len(s@) == Some(p as int),
            p < s@.len(),
            toks == split_on(s@.subrange(p as int, s@.len() - 1), ", "@),
            tokens@.map_values(|x: String| x@) == toks,
            idx <= tokens@.len(),
            coords@.len() == idx,
            forall|k: int|
                0 <= k < idx ==> coordinate_of_token(#[trigger] toks[k]) == Some(coords@[k]@),
        decreases tokens@.len() - idx,
    {
        proof {
            reveal_strlit(" ");
            assert(tokens@[idx as int]@ == toks[idx as int]);
        }
        let comps = split_str(tokens[idx].as_str(), " ");
        if comps.len() == 2 {
            coords.push(
                Coordinate {
                    e: comps[0].clone(),
                    n: comps[1].clone(),
                    h: String::from_str("N/A"),
                },
            );
        } else if comps.len() == 3 {
            coords.push(
                Coordinate { e: comps[0].clone(), n: comps[1].clone(), h: comps[2].clone() },
            );
        } else {
            proof {
                assert(comps@.map_values(|x: String| x@).len() == comps@.len());
                assert(coordinate_of_token(toks[idx as int]) is None);
                assert(!(forall|k: int|
                    0 <= k < toks.len() ==> coordinate_of_token(#[trigger] toks[k]) is Some));
            }
            return Err(GraphError::MalformedToken);
        }
        proof {
            let cm = split_on(toks[idx as int], " "@);
            assert(comps@.map_values(|x: String| x@) == cm);
            assert(comps@.len() == cm.len());
            assert(coordinate_of_token(toks[idx as int]) == Some(coords@[idx as int]@));
        }
        idx += 1;
    }
    proof {
        assert(coords@.map_values(|c: Coordinate| c@) =~= Seq::new(
            toks.len(),
            |k: int| coordinate_of_token(toks[k]).unwrap(),
        ));
    }
    Ok(coords)
}

/// The first coordinate of a linestring, failing exactly when parsing fails.
pub fn create_startcoordinate(s: &str) -> (r: Result<Coordinate, GraphError>)
    ensures
        match r {
            Ok(c) => parse_linestring(s@) matches Ok(ms) && ms.len() >= 1 && c@ == ms[0],
            Err(e) => parse_linestring(s@) == Err::<Seq<CoordinateModel>, _>(e),
        },
{
    match create_coordinates(s) {
        Ok(cs) => {
            proof {
                lemma_parse_nonempty(s@);
            }
            let mut cs = cs;
            Ok(cs.remove(0))
        },
        Err(e) => Err(e),
    }
}

/// The last coordinate of a linestring, failing exactly when parsing fails.
pub fn create_endcoordinate(s: &str) -> (r: Result<Coordinate, GraphError>)
    ensures
        match r {
            Ok(c) => parse_linestring(s@) matches Ok(ms) && ms.len() >= 1 && c@ == ms[ms.len()
                - 1],
            Err(e) => parse_linestring(s@) == Err::<Seq<CoordinateModel>, _>(e),
        },
{
    match create_coordinates(s) {
        Ok(cs) => {
            proof {
                lemma_parse_nonempty(s@);
            }
            let mut cs = cs;
            match cs.pop() {
                Some(c) => Ok(c),
                None => Err(GraphError::MalformedToken),
            }
        },
        Err(e) => Err(e),
    }
}

} // verus!
