//! Query-specification and file-list parsing. A query file holds
//! tab-delimited records `(label, kind, payload)`; the kind selects one of
//! the four term groups and the payload is a JSON list of sample
//! identifiers (flat for ALL / NOT-ANY, nested for ANY / NOT-ALL). A
//! file-of-files holds one sample file per line, its path in the first
//! whitespace-delimited column.
use vstd::prelude::*;

verus! {

use crate::QueryError;
use crate::groups::groups_view;
use crate::sketch::bytes_eq;
use crate::groups::clone_ids;

/// The byte lines of a text, as mathematical sequences.
pub open spec fn lines_view(ls: Seq<Vec<u8>>) -> Seq<Seq<u8>> {
    ls.map_values(|l: Vec<u8>| l@)
}

/// Position of the first `sep` in `s`, or a negative value when none.
pub open spec fn first_index(s: Seq<u8>, sep: u8) -> int
    decreases s.len(),
{
    if s.len() == 0 {
        -1
    } else if s[0] == sep {
        0
    } else {
        let r = first_index(s.drop_first(), sep);
        if r < 0 {
            -1
        } else {
            r + 1
        }
    }
}

proof fn lemma_first_index_at(s: Seq<u8>, sep: u8, i: int)
    requires
        0 <= i < s.len(),
        s[i] == sep,
        forall|j: int| 0 <= j < i ==> s[j] != sep,
    ensures
        first_index(s, sep) == i,
    decreases i,
{
    if i > 0 {
        lemma_first_index_at(s.drop_first(), sep, i - 1);
    }
}

proof fn lemma_first_index_none(s: Seq<u8>, sep: u8)
    requires
        forall|j: int| 0 <= j < s.len() ==> s[j] != sep,
    ensures
        first_index(s, sep) < 0,
    decreases s.len(),
{
    if s.len() > 0 {
        lemma_first_index_none(s.drop_first(), sep);
    }
}

/// The fields of `s` between occurrences of `sep`: one more field than
/// separators, empty fields kept.
pub open spec fn split_at_byte(s: Seq<u8>, sep: u8) -> Seq<Seq<u8>>
    decreases s.len(),
{
    let i = first_index(s, sep);
    if i < 0 || i >= s.len() {
        seq![s]
    } else {
        seq![s.take(i)] + split_at_byte(s.subrange(i + 1, s.len() as int), sep)
    }
}

/// Splits a line into its fields at each `sep`.
pub fn split_bytes(line: &Vec<u8>, sep: u8) -> (r: Vec<Vec<u8>>)
    ensures
        lines_view(r@) == split_at_byte(line@, sep),
{
    let mut parts: Vec<Vec<u8>> = Vec::new();
    let mut cur: usize = 0;
    let n = line.len();
    proof {
        assert(line@.subrange(0, n as int) =~= line@);
    }
    while cur <= n
        invariant
            n == line@.len(),
            0 <= cur <= n,
            split_at_byte(line@, sep) == lines_view(parts@) + split_at_byte(
                line@.subrange(cur as int, n as int),
                sep,
            ),
        decreases n - cur,
    {
        let ghost suffix = line@.subrange(cur as int, n as int);
        let mut i: usize = cur;
        while i < n && line[i] != sep
            invariant
                n == line@.len(),
                cur <= i <= n,
                forall|j: int| cur <= j < i ==> line@[j] != sep,
            decreases n - i,
        {
            i += 1;
        }
        let mut field: Vec<u8> = Vec::new();
        let mut j: usize = cur;
        while j < i
            invariant
                n == line@.len(),
                cur <= j <= i <= n,
                field@ == line@.subrange(cur as int, j as int),
            decreases i - j,
        {
            field.push(line[j]);
            proof {
                assert(field@ =~= line@.subrange(cur as int, j + 1));
            }
            j += 1;
        }
        if i < n {
            proof {
                assert(suffix[i - cur] == sep);
                assert(forall|t: int| 0 <= t < i - cur ==> suffix[t] != sep);
                lemma_first_index_at(suffix, sep, i - cur);
                assert(suffix.take(i - cur) =~= line@.subrange(cur as int, i as int));
                assert(suffix.subrange(i - cur + 1, suffix.len() as int) =~= line@.subrange(
                    i + 1,
                    n as int,
                ));
                assert(lines_view(parts@.push(field)) =~= lines_view(parts@) + seq![field@]);
                assert(lines_view(parts@) + (seq![field@] + split_at_byte(
                    line@.subrange(i + 1, n as int),
                    sep,
                )) =~= (lines_view(parts@) + seq![field@]) + split_at_byte(
                    line@.subrange(i + 1, n as int),
                    sep,
                ));
            }
            parts.push(field);
            cur = i + 1;
        } else {
            proof {
                assert(forall|t: int| 0 <= t < suffix.len() ==> suffix[t] != sep);
                lemma_first_index_none(suffix, sep);
                assert(field@ =~= suffix);
                assert(split_at_byte(suffix, sep) == seq![suffix]);
                assert(lines_view(parts@.push(field)) =~= lines_view(parts@) + seq![suffix]);
            }
            parts.push(field);
            return parts;
        }
    }
    parts
}

/// The kind word selecting the mandatory-intersection group.
pub open spec fn kind_all() -> Seq<u8> {
    seq![65u8, 76u8, 76u8]
}

/// The kind word selecting an any-of group list.
pub open spec fn kind_any() -> Seq<u8> {
    seq![65u8, 78u8, 89u8]
}

/// The kind word selecting an exclude-if-common group list.
pub open spec fn kind_not_all() -> Seq<u8> {
    seq![78u8, 79u8, 84u8, 45u8, 65u8, 76u8, 76u8]
}

/// The kind word selecting the mandatory-exclusion group.
pub open spec fn kind_not_any() -> Seq<u8> {
    seq![78u8, 79u8, 84u8, 45u8, 65u8, 78u8, 89u8]
}

fn kind_all_bytes() -> (r: Vec<u8>)
    ensures
        r@ == kind_all(),
{
    let mut v: Vec<u8> = Vec::new();
    v.push(65u8);
    v.push(76u8);
    v.push(76u8);
    proof {
        assert(v@ =~= kind_all());
    }
    v
}

fn kind_any_bytes() -> (r: Vec<u8>)
    ensures
        r@ == kind_any(),
{
    let mut v: Vec<u8> = Vec::new();
    v.push(65u8);
    v.push(78u8);
    v.push(89u8);
    proof {
        assert(v@ =~= kind_any());
    }
    v
}

fn kind_not_all_bytes() -> (r: Vec<u8>)
    ensures
        r@ == kind_not_all(),
{
    let mut v: Vec<u8> = Vec::new();
    v.push(78u8);
    v.push(79u8);
    v.push(84u8);
    v.push(45u8);
    v.push(65u8);
    v.push(76u8);
    v.push(76u8);
    proof {
        assert(v@ =~= kind_not_all());
    }
    v
}

fn kind_not_any_bytes() -> (r: Vec<u8>)
    ensures
        r@ == kind_not_any(),
{
    let mut v: Vec<u8> = Vec::new();
    v.push(78u8);
    v.push(79u8);
    v.push(84u8);
    v.push(45u8);
    v.push(65u8);
    v.push(78u8);
    v.push(89u8);
    proof {
        assert(v@ =~= kind_not_any());
    }
    v
}

/// What a JSON list of identifiers parses to, if anything.
pub uninterp spec fn parsed_ids(b: Seq<u8>) -> Option<Seq<i32>>;

/// What a JSON list of identifier lists parses to, if anything.
pub uninterp spec fn parsed_id_groups(b: Seq<u8>) -> Option<Seq<Seq<i32>>>;

/// Relies on serde_json::from_slice::<Vec<i32>>: whether and how a JSON
/// integer list parses depends on the bytes alone.
#[verifier::external_body]
fn parse_id_list(b: &Vec<u8>) -> (r: Option<Vec<i32>>)
    ensures
        match r {
            Some(v) => parsed_ids(b@) == Some(v@),
            None => parsed_ids(b@) is None,
        },
{
    serde_json::from_slice::<Vec<i32>>(b.as_slice()).ok()
}

/// Relies on serde_json::from_slice::<Vec<Vec<i32>>>: whether and how a
/// JSON list of integer lists parses depends on the bytes alone.
#[verifier::external_body]
fn parse_id_groups(b: &Vec<u8>) -> (r: Option<Vec<Vec<i32>>>)
    ensures
        match r {
            Some(v) => parsed_id_groups(b@) == Some(groups_view(v@)),
            None => parsed_id_groups(b@) is None,
        },
{
    serde_json::from_slice::<Vec<Vec<i32>>>(b.as_slice()).ok()
}

/// What one record contributes to the four term groups, or nothing when
/// the record is malformed: wrong field count, unknown kind, or a payload
/// that does not parse.
pub open spec fn parse_line(line: Seq<u8>) -> Option<
    (Seq<i32>, Seq<Seq<i32>>, Seq<Seq<i32>>, Seq<i32>),
> {
    let parts = split_at_byte(line, 9);
    if parts.len() != 3 {
        None
    } else {
        let kind = parts[1];
        let payload = parts[2];
        if kind == kind_all() {
            match parsed_ids(payload) {
                Some(v) => Some((v, Seq::empty(), Seq::empty(), Seq::empty())),
                None => None,
            }
        } else if kind == kind_not_any() {
            match parsed_ids(payload) {
                Some(v) => Some((Seq::empty(), Seq::empty(), Seq::empty(), v)),
                None => None,
            }
        } else if kind == kind_any() {
            match parsed_id_groups(payload) {
                Some(gs) => Some((Seq::empty(), gs, Seq::empty(), Seq::empty())),
                None => None,
            }
        } else if kind == kind_not_all() {
            match parsed_id_groups(payload) {
                Some(gs) => Some((Seq::empty(), Seq::empty(), gs, Seq::empty())),
                None => None,
            }
        } else {
            None
        }
    }
}

/// The four term groups a record list denotes: each record's contribution
/// appended in record order, or nothing when any record is malformed.
pub open spec fn parse_lines(lines: Seq<Seq<u8>>) -> Option<
    (Seq<i32>, Seq<Seq<i32>>, Seq<Seq<i32>>, Seq<i32>),
>
    decreases lines.len(),
{
    if lines.len() == 0 {
        Some((Seq::empty(), Seq::empty(), Seq::empty(), Seq::empty()))
    } else {
        match parse_lines(lines.drop_last()) {
            None => None,
            Some(acc) => match parse_line(lines.last()) {
                None => None,
                Some(x) => Some((acc.0 + x.0, acc.1 + x.1, acc.2 + x.2, acc.3 + x.3)),
            },
        }
    }
}

proof fn lemma_parse_none_extends(lines: Seq<Seq<u8>>, i: int)
    requires
        0 <= i <= lines.len(),
        parse_lines(lines.take(i)) is None,
    ensures
        parse_lines(lines) is None,
    decreases lines.len() - i,
{
    if i == lines.len() {
        assert(lines.take(i) =~= lines);
    } else {
        assert(lines.take(i + 1).drop_last() =~= lines.take(i));
        lemma_parse_none_extends(lines, i + 1);
    }
}

fn append_ids(dst: &mut Vec<i32>, src: &Vec<i32>)
    ensures
        final(dst)@ == old(dst)@ + src@,
{
    let mut i: usize = 0;
    while i < src.len()
        invariant
            0 <= i <= src@.len(),
            dst@ == old(dst)@ + src@.take(i as int),
        decreases src@.len() - i,
    {
        dst.push(src[i]);
        proof {
            assert(old(dst)@ + src@.take(i as int) + seq![src@[i as int]] =~= old(dst)@ + src@.take(
                i + 1,
            ));
        }
        i += 1;
    }
    proof {
        assert(old(dst)@ + src@.take(src@.len() as int) =~= old(dst)@ + src@);
    }
}

fn append_groups(dst: &mut Vec<Vec<i32>>, src: &Vec<Vec<i32>>)
    ensures
        groups_view(final(dst)@) == groups_view(old(dst)@) + groups_view(src@),
{
    let mut i: usize = 0;
    while i < src.len()
        invariant
            0 <= i <= src@.len(),
            groups_view(dst@) == groups_view(old(dst)@) + groups_view(src@.take(i as int)),
        decreases src@.len() - i,
    {
        let ghost prev = dst@;
        let g = clone_ids(&src[i]);
        dst.push(g);
        proof {
            let x = src@[i as int]@;
            assert(groups_view(src@.take(i + 1)) =~= groups_view(src@.take(i as int)).push(x));
            assert(groups_view(dst@) =~= groups_view(prev).push(x));
            assert(groups_view(old(dst)@) + groups_view(src@.take(i as int)).push(x) =~= (
            groups_view(old(dst)@) + groups_view(src@.take(i as int))).push(x));
        }
        i += 1;
    }
    proof {
        assert(groups_view(src@.take(src@.len() as int)) =~= groups_view(src@));
    }
}

/// Parses the records of a query specification into the four term groups.
/// Fails, with no partial result, exactly when some record is malformed.
pub fn parse_query_lines(lines: &Vec<Vec<u8>>) -> (r: Result<
    (Vec<i32>, Vec<Vec<i32>>, Vec<Vec<i32>>, Vec<i32>),
    QueryError,
>)
    ensures
        r is Ok <==> parse_lines(lines_view(lines@)) is Some,
        match r {
            Ok(t) => {
                let p = parse_lines(lines_view(lines@)).unwrap();
                &&& t.0@ == p.0
                &&& groups_view(t.1@) == p.1
                &&& groups_view(t.2@) == p.2
                &&& t.3@ == p.3
            },
            Err(e) => e == QueryError::InvalidQuerySpec,
        },
{
    let ghost lv = lines_view(lines@);
    let kall = kind_all_bytes();
    let kany = kind_any_bytes();
    let knotall = kind_not_all_bytes();
    let knotany = kind_not_any_bytes();
    let mut must_all: Vec<i32> = Vec::new();
    let mut any_groups: Vec<Vec<i32>> = Vec::new();
    let mut exclude_common: Vec<Vec<i32>> = Vec::new();
    let mut must_none: Vec<i32> = Vec::new();
    proof {
        assert(parse_lines(lv.take(0)) == Some(
            (
                Seq::<i32>::empty(),
                Seq::<Seq<i32>>::empty(),
                Seq::<Seq<i32>>::empty(),
                Seq::<i32>::empty(),
            ),
        ));
        assert(must_all@ =~= Seq::<i32>::empty());
        assert(groups_view(any_groups@) =~= Seq::<Seq<i32>>::empty());
        assert(groups_view(exclude_common@) =~= Seq::<Seq<i32>>::empty());
        assert(must_none@ =~= Seq::<i32>::empty());
    }
    let mut i: usize = 0;
    while i < lines.len()
        invariant
            lv == lines_view(lines@),
            kall@ == kind_all(),
            kany@ == kind_any(),
            knotall@ == kind_not_all(),
            knotany@ == kind_not_any(),
            0 <= i <= lv.len(),
            parse_lines(lv.take(i as int)) matches Some(p) && must_all@ == p.0 && groups_view(
                any_groups@,
            ) == p.1 && groups_view(exclude_common@) == p.2 && must_none@ == p.3,
        decreases lines@.len() - i,
    {
        let ghost before = parse_lines(lv.take(i as int)).unwrap();
        let parts = split_bytes(&lines[i], 9u8);
        proof {
            assert(lv.take(i + 1).drop_last() =~= lv.take(i as int));
            assert(lv.take(i + 1).last() == lv[i as int]);
            assert(lines_view(parts@) == split_at_byte(lv[i as int], 9));
        }
        if parts.len() != 3 {
            proof {
                assert(parse_line(lv[i as int]) is None);
                assert(parse_lines(lv.take(i + 1)) is None);
                lemma_parse_none_extends(lv, i + 1);
            }
            return Err(QueryError::InvalidQuerySpec);
        }
        let kind = &parts[1];
        let payload = &parts[2];
        proof {
            assert(kind@ == split_at_byte(lv[i as int], 9)[1]);
            assert(payload@ == split_at_byte(lv[i as int], 9)[2]);
        }
        if bytes_eq(kind, &kall) {
            match parse_id_list(payload) {
                Some(v) => {
                    append_ids(&mut must_all, &v);
                    proof {
                        assert(parse_line(lv[i as int]) == Some(
                            (
                                v@,
                                Seq::<Seq<i32>>::empty(),
                                Seq::<Seq<i32>>::empty(),
                                Seq::<i32>::empty(),
                            ),
                        ));
                        assert(groups_view(any_groups@) =~= before.1 + Seq::<Seq<i32>>::empty());
                        assert(groups_view(exclude_common@) =~= before.2 + Seq::<
                            Seq<i32>,
                        >::empty());
                        assert(must_none@ =~= before.3 + Seq::<i32>::empty());
                    }
                },
                None => {
                    proof {
                        assert(parse_line(lv[i as int]) is None);
                        assert(parse_lines(lv.take(i + 1)) is None);
                        lemma_parse_none_extends(lv, i + 1);
                    }
                    return Err(QueryError::InvalidQuerySpec);
                },
            }
        } else if bytes_eq(kind, &knotany) {
            match parse_id_list(payload) {
                Some(v) => {
                    append_ids(&mut must_none, &v);
                    proof {
                        assert(parse_line(lv[i as int]) == Some(
                            (
                                Seq::<i32>::empty(),
                                Seq::<Seq<i32>>::empty(),
                                Seq::<Seq<i32>>::empty(),
                                v@,
                            ),
                        ));
                        assert(must_all@ =~= before.0 + Seq::<i32>::empty());
                        assert(groups_view(any_groups@) =~= before.1 + Seq::<Seq<i32>>::empty());
                        assert(groups_view(exclude_common@) =~= before.2 + Seq::<
                            Seq<i32>,
                        >::empty());
                    }
                },
                None => {
                    proof {
                        assert(parse_line(lv[i as int]) is None);
                        assert(parse_lines(lv.take(i + 1)) is None);
                        lemma_parse_none_extends(lv, i + 1);
                    }
                    return Err(QueryError::InvalidQuerySpec);
                },
            }
        } else if bytes_eq(kind, &kany) {
            match parse_id_groups(payload) {
                Some(gs) => {
                    append_groups(&mut any_groups, &gs);
                    proof {
                        assert(parse_line(lv[i as int]) == Some(
                            (
                                Seq::<i32>::empty(),
                                groups_view(gs@),
                                Seq::<Seq<i32>>::empty(),
                                Seq::<i32>::empty(),
                            ),
                        ));
                        assert(must_all@ =~= before.0 + Seq::<i32>::empty());
                        assert(groups_view(exclude_common@) =~= before.2 + Seq::<
                            Seq<i32>,
                        >::empty());
                        assert(must_none@ =~= before.3 + Seq::<i32>::empty());
                    }
                },
                None => {
                    proof {
                        assert(parse_line(lv[i as int]) is None);
                        assert(parse_lines(lv.take(i + 1)) is None);
                        lemma_parse_none_extends(lv, i + 1);
                    }
                    return Err(QueryError::InvalidQuerySpec);
                },
            }
        } else if bytes_eq(kind, &knotall) {
            match parse_id_groups(payload) {
                Some(gs) => {
                    append_groups(&mut exclude_common, &gs);
                    proof {
                        assert(parse_line(lv[i as int]) == Some(
                            (
                                Seq::<i32>::empty(),
                                Seq::<Seq<i32>>::empty(),
                                groups_view(gs@),
                                Seq::<i32>::empty(),
                            ),
                        ));
                        assert(must_all@ =~= before.0 + Seq::<i32>::empty());
                        assert(groups_view(any_groups@) =~= before.1 + Seq::<Seq<i32>>::empty());
                        assert(must_none@ =~= before.3 + Seq::<i32>::empty());
                    }
                },
                None => {
                    proof {
                        assert(parse_line(lv[i as int]) is None);
                        assert(parse_lines(lv.take(i + 1)) is None);
                        lemma_parse_none_extends(lv, i + 1);
                    }
                    return Err(QueryError::InvalidQuerySpec);
                },
            }
        } else {
            proof {
                assert(parse_line(lv[i as int]) is None);
                assert(parse_lines(lv.take(i + 1)) is None);
                lemma_parse_none_extends(lv, i + 1);
            }
            return Err(QueryError::InvalidQuerySpec);
        }
        i += 1;
    }
    proof {
        assert(lv.take(lv.len() as int) =~= lv);
    }
    Ok((must_all, any_groups, exclude_common, must_none))
}

/// Whitespace, as the file-of-files column rules see it.
pub open spec fn is_space(b: u8) -> bool {
    b == 32 || b == 9 || b == 10 || b == 11 || b == 12 || b == 13
}

/// Position of the first non-whitespace byte at or after `i`.
pub open spec fn skip_spaces(s: Seq<u8>, i: int) -> int
    decreases s.len() - i,
{
    if i < 0 || i >= s.len() {
        s.len() as int
    } else if is_space(s[i]) {
        skip_spaces(s, i + 1)
    } else {
        i
    }
}

/// Position of the first whitespace byte at or after `i`.
pub open spec fn token_end(s: Seq<u8>, i: int) -> int
    decreases s.len() - i,
{
    if i < 0 || i >= s.len() {
        s.len() as int
    } else if is_space(s[i]) {
        i
    } else {
        token_end(s, i + 1)
    }
}

/// The first whitespace-delimited column of a line, when it has one.
pub open spec fn first_column(line: Seq<u8>) -> Option<Seq<u8>> {
    let st = skip_spaces(line, 0);
    if st >= line.len() {
        None
    } else {
        Some(line.subrange(st, token_end(line, st)))
    }
}

/// The sample file paths a file-of-files lists: the first column of each
/// line that has one, in line order. Line order assigns the sample
/// identifiers.
pub open spec fn fof_columns(lines: Seq<Seq<u8>>) -> Seq<Seq<u8>>
    decreases lines.len(),
{
    if lines.len() == 0 {
        Seq::empty()
    } else {
        fof_columns(lines.drop_last()) + match first_column(lines.last()) {
            Some(c) => seq![c],
            None => Seq::empty(),
        }
    }
}

fn is_space_byte(b: u8) -> (r: bool)
    ensures
        r == is_space(b),
{
    b == 32 || b == 9 || b == 10 || b == 11 || b == 12 || b == 13
}

/// Reads a file-of-files: the first whitespace-delimited column of each
/// line, with the number of samples listed.
pub fn read_fof_columns(lines: &Vec<Vec<u8>>) -> (r: (Vec<Vec<u8>>, usize))
    ensures
        lines_view(r.0@) == fof_columns(lines_view(lines@)),
        r.1 == r.0@.len(),
{
    let ghost lv = lines_view(lines@);
    let mut out: Vec<Vec<u8>> = Vec::new();
    proof {
        assert(lines_view(out@) =~= fof_columns(lv.take(0)));
    }
    let mut i: usize = 0;
    while i < lines.len()
        invariant
            lv == lines_view(lines@),
            0 <= i <= lv.len(),
            lines_view(out@) == fof_columns(lv.take(i as int)),
        decreases lines@.len() - i,
    {
        let line = &lines[i];
        let n = line.len();
        let mut st: usize = 0;
        while st < n && is_space_byte(line[st])
            invariant
                n == line@.len(),
                0 <= st <= n,
                skip_spaces(line@, 0) == skip_spaces(line@, st as int),
            decreases n - st,
        {
            st += 1;
        }
        proof {
            assert(lv.take(i + 1).drop_last() =~= lv.take(i as int));
            assert(lv.take(i + 1).last() == lv[i as int]);
        }
        if st < n {
            let mut en: usize = st;
            while en < n && !is_space_byte(line[en])
                invariant
                    n == line@.len(),
                    st <= en <= n,
                    token_end(line@, st as int) == token_end(line@, en as int),
                decreases n - en,
            {
                en += 1;
            }
            let mut col: Vec<u8> = Vec::new();
            let mut j: usize = st;
            while j < en
                invariant
                    n == line@.len(),
                    st <= j <= en <= n,
                    col@ == line@.subrange(st as int, j as int),
                decreases en - j,
            {
                col.push(line[j]);
                proof {
                    assert(col@ =~= line@.subrange(st as int, j + 1));
                }
                j += 1;
            }
            proof {
                assert(first_column(lv[i as int]) == Some(col@));
                assert(lines_view(out@.push(col)) =~= lines_view(out@) + seq![col@]);
            }
            out.push(col);
        } else {
            proof {
                assert(first_column(lv[i as int]) is None);
                assert(fof_columns(lv.take(i + 1)) =~= fof_columns(lv.take(i as int)));
            }
        }
        i += 1;
    }
    proof {
        assert(lv.take(lv.len() as int) =~= lv);
    }
    let count = out.len();
    (out, count)
}

} // verus!
